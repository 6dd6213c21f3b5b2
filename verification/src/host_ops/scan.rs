//! Operations along one axis: reductions, running sums and selection.

use crate::bytes::{lemma_picked_same, picked, push_element};
use crate::error::{invalid_tensor, Kind, Result};
use crate::floats::{bit_length, half_even, lemma_bit_length, total_order, total_place};
use crate::graph::{elem_size, size_of_code, TensorView};
use crate::host_ops::arith::{divide, quotient};
use crate::host_ops::fill::lemma_element_within;
use crate::host_ops::lanes::{
    lane_of, lane_place, lemma_axis_split, lemma_lane_bound, lemma_lane_count, lemma_lane_of,
    lemma_lane_place, step_of,
};
use crate::host_ops::{
    copy_dims, fault, float_tensor, floats_of, gives, int_tensor, ints_of, lemma_sound_len,
    returned, returned_of, HostTensor, Outcome, FLOAT,
};
use crate::num::in_range;
use crate::shape::{lemma_count, lemma_nonempty, lemma_suffix_bound, positive, product, suffix};
use vstd::arithmetic::power2::{
    lemma2_to64, lemma2_to64_rest, lemma_pow2_adds, lemma_pow2_pos, lemma_pow2_strictly_increases,
    lemma_pow2_unfold, pow2,
};
use vstd::prelude::*;

verus! {

/// How a lane is reduced to one value.
#[derive(Debug, Clone, Copy, PartialEq, Eq, Structural)]
pub enum RedOp {
    Sum,
    Mean,
    Max,
    Min,
}

/// How many elements lie behind each along an axis, for a tensor with elements.
fn inner_count(shape: &[i64], axis: usize) -> (r: usize)
    requires
        positive(shape@),
        suffix(shape@, 0) <= usize::MAX,
        axis < shape@.len(),
    ensures
        r == suffix(shape@, axis + 1),
        r >= 1,
{
    let n: usize = shape.len();
    let mut acc: usize = 1;
    let mut d: usize = n;
    while d > axis + 1
        invariant
            n == shape@.len(),
            axis + 1 <= d <= n,
            positive(shape@),
            suffix(shape@, 0) <= usize::MAX,
            acc == suffix(shape@, d as int),
        decreases d,
    {
        d -= 1;
        proof {
            lemma_suffix_bound(shape@, d as int);
            lemma_suffix_bound(shape@, d + 1);
            let a = shape@[d as int] as int;
            let b = acc as int;
            assert(b * a == a * b) by (nonlinear_arith);
            assert(a <= a * b) by (nonlinear_arith)
                requires
                    a >= 1,
                    b >= 1,
            ;
        }
        acc = acc * (shape[d] as usize);
    }
    proof {
        lemma_suffix_bound(shape@, axis + 1);
    }
    acc
}

// --- reduction --------------------------------------------------------------------------

/// The sum of the first `k` elements of a lane.
pub open spec fn lane_sum(v: Seq<i64>, c: int, inner: int, r: int, k: int) -> int
    decreases k,
{
    if k <= 0 {
        0
    } else {
        lane_sum(v, c, inner, r, k - 1) + v[lane_place(c, inner, r, k - 1)]
    }
}

/// The greatest of the first `k` elements of a lane.
pub open spec fn lane_max(v: Seq<i64>, c: int, inner: int, r: int, k: int) -> int
    decreases k,
{
    if k <= 0 {
        i64::MIN as int
    } else {
        let m = lane_max(v, c, inner, r, k - 1);
        let e = v[lane_place(c, inner, r, k - 1)] as int;
        if e > m {
            e
        } else {
            m
        }
    }
}

/// The least of the first `k` elements of a lane.
pub open spec fn lane_min(v: Seq<i64>, c: int, inner: int, r: int, k: int) -> int
    decreases k,
{
    if k <= 0 {
        i64::MAX as int
    } else {
        let m = lane_min(v, c, inner, r, k - 1);
        let e = v[lane_place(c, inner, r, k - 1)] as int;
        if e < m {
            e
        } else {
            m
        }
    }
}

/// What lane `r` of `c` elements reduces to.
pub open spec fn lane_value(op: RedOp, v: Seq<i64>, c: int, inner: int, r: int) -> int {
    match op {
        RedOp::Sum => lane_sum(v, c, inner, r, c),
        RedOp::Mean => quotient(lane_sum(v, c, inner, r, c), c),
        RedOp::Max => lane_max(v, c, inner, r, c),
        RedOp::Min => lane_min(v, c, inner, r, c),
    }
}

/// The shape without the axis, or with one element along it.
pub open spec fn reduced_shape(shape: Seq<i64>, axis: int, keepdims: bool) -> Seq<i64> {
    if keepdims {
        shape.update(axis, 1)
    } else {
        shape.remove(axis)
    }
}

/// The number of lanes of a tensor with `n` elements along an axis of `c`.
pub open spec fn lane_count(n: int, c: int) -> int {
    if n == 0 {
        0
    } else {
        n / c
    }
}

/// The tensor reduced along one axis, in its own type.
pub open spec fn reduce_of(t: TensorView, axis: int, op: RedOp, keepdims: bool) -> Outcome<
    TensorView,
> {
    if axis >= t.shape.len() {
        Err(Kind::Tensor)
    } else {
        match ints_of(t) {
            Err(k) => Err(k),
            Ok(v) => {
                let c = t.shape[axis] as int;
                let inner = suffix(t.shape, axis + 1);
                returned_of(
                    int_tensor(
                        reduced_shape(t.shape, axis, keepdims),
                        Seq::new(
                            lane_count(v.len() as int, c) as nat,
                            |r: int| lane_value(op, v, c, inner, r) as i64,
                        ),
                    ),
                    t.dtype,
                )
            },
        }
    }
}

/// Whether no sum along a lane leaves the range of 64-bit integers.
pub open spec fn sums_fit(v: Seq<i64>, c: int, inner: int) -> bool {
    forall|r: int, k: int|
        0 <= r < lane_count(v.len() as int, c) && 0 <= k <= c ==> in_range(
            #[trigger] lane_sum(v, c, inner, r, k),
        )
}

/// Whether the reduction stays within the range of 64-bit integers.
pub open spec fn reduce_fits(t: TensorView, axis: int, op: RedOp) -> bool {
    &&& (op == RedOp::Sum || op == RedOp::Mean) && 0 <= axis < t.shape.len() && ints_of(t) is Ok
        ==> sums_fit(ints_of(t)->Ok_0, t.shape[axis] as int, suffix(t.shape, axis + 1))
}

proof fn lemma_lane_range(v: Seq<i64>, c: int, inner: int, r: int, k: int)
    ensures
        in_range(lane_max(v, c, inner, r, k)),
        in_range(lane_min(v, c, inner, r, k)),
    decreases k,
{
    if k > 0 {
        lemma_lane_range(v, c, inner, r, k - 1);
    }
}

proof fn lemma_reduce_fits(t: TensorView, axis: int, op: RedOp, v: Seq<i64>, r: int, k: int)
    requires
        reduce_fits(t, axis, op),
        op == RedOp::Sum || op == RedOp::Mean,
        0 <= axis < t.shape.len(),
        ints_of(t) == Ok::<Seq<i64>, Kind>(v),
        0 <= r < lane_count(v.len() as int, t.shape[axis] as int),
        0 <= k <= t.shape[axis],
    ensures
        in_range(lane_sum(v, t.shape[axis] as int, suffix(t.shape, axis + 1), r, k)),
{
}

/// Reduces one lane.
fn reduce_lane(op: RedOp, v: &Vec<i64>, c: usize, inner: usize, r: usize, Ghost(outer): Ghost<
    int,
>) -> (x: i64)
    requires
        c >= 1,
        inner >= 1,
        outer >= 1,
        r < outer * inner,
        v@.len() == outer * (c * inner),
        (op == RedOp::Sum || op == RedOp::Mean) ==> forall|k: int|
            0 <= k <= c ==> in_range(#[trigger] lane_sum(v@, c as int, inner as int, r as int, k)),
        c <= i64::MAX,
    ensures
        x == lane_value(op, v@, c as int, inner as int, r as int),
{
    let n: usize = v.len();
    proof {
        lemma_lane_bound(c as int, inner as int, outer, r as int, 0);
        lemma_lane_bound(c as int, inner as int, outer, r as int, c - 1);
        let q = (r / inner) as int;
        let ci = c as int;
        let ii = inner as int;
        assert(0 <= q) by (nonlinear_arith)
            requires
                q == r / inner,
                inner >= 1,
        ;
        assert(0 <= q * (ci * ii) && ci * ii >= 1) by (nonlinear_arith)
            requires
                0 <= q,
                ci >= 1,
                ii >= 1,
        ;
        assert(ci * ii <= outer * (ci * ii)) by (nonlinear_arith)
            requires
                outer >= 1,
                ci * ii >= 1,
        ;
    }
    let block: usize = c * inner;
    let base: usize = (r / inner) * block + r % inner;
    let mut sum: i64 = 0;
    let mut best: i64 = match op {
        RedOp::Max => i64::MIN,
        _ => i64::MAX,
    };
    let mut k: usize = 0;
    while k < c
        invariant
            k <= c,
            c >= 1,
            inner >= 1,
            outer >= 1,
            r < outer * inner,
            v@.len() == outer * (c * inner),
            v@.len() == n,
            base == lane_place(c as int, inner as int, r as int, 0),
            (op == RedOp::Sum || op == RedOp::Mean) ==> forall|k: int|
                0 <= k <= c ==> in_range(
                    #[trigger] lane_sum(v@, c as int, inner as int, r as int, k),
                ),
            (op == RedOp::Sum || op == RedOp::Mean) ==> sum == lane_sum(
                v@,
                c as int,
                inner as int,
                r as int,
                k as int,
            ),
            op == RedOp::Max ==> best == lane_max(v@, c as int, inner as int, r as int, k as int),
            op == RedOp::Min ==> best == lane_min(v@, c as int, inner as int, r as int, k as int),
        decreases c - k,
    {
        proof {
            lemma_lane_bound(c as int, inner as int, outer, r as int, k as int);
            assert(0 <= k * inner) by (nonlinear_arith);
            assert(lane_place(c as int, inner as int, r as int, k as int) == base + k * inner);
        }
        let e: i64 = v[base + k * inner];
        assert(e == v@[lane_place(c as int, inner as int, r as int, k as int)]);
        match op {
            RedOp::Max => {
                if e > best {
                    best = e;
                }
            },
            RedOp::Min => {
                if e < best {
                    best = e;
                }
            },
            _ => {
                assert(in_range(lane_sum(v@, c as int, inner as int, r as int, k + 1)));
                sum = sum + e;
            },
        }
        k += 1;
    }
    match op {
        RedOp::Max => best,
        RedOp::Min => best,
        RedOp::Sum => sum,
        RedOp::Mean => divide(sum, c as i64),
    }
}

/// Reduces a tensor along one axis in 64-bit integers, and returns to its type. The mean
/// drops its fraction.
pub fn reduce(x: &HostTensor, axis: usize, op: RedOp, keepdims: bool) -> (r: Result<HostTensor>)
    requires
        reduce_fits(x@, axis as int, op),
    ensures
        gives(r, reduce_of(x@, axis as int, op, keepdims)),
{
    if axis >= x.shape.len() {
        return Err(invalid_tensor("axis out of rank"));
    }
    let v = match x.to_i64() {
        Ok(v) => v,
        Err(e) => {
            return Err(e);
        },
    };
    let ghost c0 = x.shape@[axis as int] as int;
    let ghost inner0 = suffix(x.shape@, axis + 1);
    let mut out: Vec<i64> = Vec::new();
    proof {
        lemma_sound_len(x@);
        lemma_count(x.shape@);
    }
    if v.len() > 0 {
        proof {
            lemma_nonempty(x.shape@);
            lemma_axis_split(x.shape@, axis as int);
        }
        let c: usize = x.shape[axis] as usize;
        let inner: usize = inner_count(x.shape.as_slice(), axis);
        let ghost outer = product(x.shape@.take(axis as int));
        proof {
            let n = v@.len() as int;
            assert(c0 <= n) by (nonlinear_arith)
                requires
                    c0 * inner0 <= n,
                    c0 >= 1,
                    inner0 >= 1,
            ;
        }
        let rows: usize = v.len() / c;
        let mut r: usize = 0;
        while r < rows
            invariant
                r <= rows,
                rows == lane_count(v@.len() as int, c0),
                c == c0,
                c <= i64::MAX,
                inner == inner0,
                c >= 1,
                inner >= 1,
                outer >= 1,
                rows == outer * inner,
                v@.len() == outer * (c * inner),
                c0 == x.shape@[axis as int],
                inner0 == suffix(x.shape@, axis + 1),
                axis < x.shape@.len(),
                ints_of(x@) == Ok::<Seq<i64>, Kind>(v@),
                reduce_fits(x@, axis as int, op),
                out@ == Seq::new(r as nat, |r: int| lane_value(op, v@, c0, inner0, r) as i64),
            decreases rows - r,
        {
            proof {
                if op == RedOp::Sum || op == RedOp::Mean {
                    assert forall|k: int| 0 <= k <= c implies in_range(
                        #[trigger] lane_sum(v@, c as int, inner as int, r as int, k),
                    ) by {
                        lemma_reduce_fits(x@, axis as int, op, v@, r as int, k);
                    }
                }
            }
            let e: i64 = reduce_lane(op, &v, c, inner, r, Ghost(outer));
            out.push(e);
            r += 1;
            assert(out@ =~= Seq::new(r as nat, |r: int| lane_value(op, v@, c0, inner0, r) as i64));
        }
    } else {
        assert(out@ =~= Seq::new(0, |r: int| lane_value(op, v@, c0, inner0, r) as i64));
    }
    let mut shape = copy_dims(x.shape.as_slice());
    if keepdims {
        shape.set(axis, 1);
    } else {
        let _gone: i64 = shape.remove(axis);
    }
    returned(&HostTensor::from_i64(shape, out.as_slice()), x.dtype)
}

// --- running sums -----------------------------------------------------------------------

/// `n` rounded to 53 significant binary digits, halves to even.
pub open spec fn round53(n: nat) -> nat {
    if bit_length(n) <= 53 {
        n
    } else {
        let s = (bit_length(n) - 53) as nat;
        half_even(n, s) * pow2(s)
    }
}

/// `v` as a double-precision number.
pub open spec fn double(v: int) -> int {
    if v < 0 {
        -(round53((-v) as nat) as int)
    } else {
        round53(v as nat) as int
    }
}

/// The element of a lane of `c` that step `s` visits.
pub open spec fn walk(c: int, reverse: bool, s: int) -> int {
    if reverse {
        c - 1 - s
    } else {
        s
    }
}

/// The sum in double precision after `s` steps along lane `r`.
pub open spec fn running(v: Seq<i64>, c: int, inner: int, r: int, reverse: bool, s: int) -> int
    decreases s,
{
    if s <= 0 {
        0
    } else {
        double(
            running(v, c, inner, r, reverse, s - 1) + double(
                v[lane_place(c, inner, r, walk(c, reverse, s - 1))] as int,
            ),
        )
    }
}

/// How many steps of its lane the element at position `k` sums up.
pub open spec fn summed(c: int, reverse: bool, exclusive: bool, k: int) -> int {
    walk(c, reverse, k) + if exclusive {
        0int
    } else {
        1
    }
}

/// `v` held within the range of 64-bit integers.
pub open spec fn held(v: int) -> int {
    if v > i64::MAX {
        i64::MAX as int
    } else if v < i64::MIN {
        i64::MIN as int
    } else {
        v
    }
}

/// The axis counted from the front, for one counted from either end.
pub open spec fn front_axis(axis: int, rank: int) -> int {
    if axis < 0 {
        axis + rank
    } else {
        axis
    }
}

/// The running sum at place `o` of an integer tensor.
pub open spec fn int_running_at(
    v: Seq<i64>,
    c: int,
    inner: int,
    exclusive: bool,
    reverse: bool,
    o: int,
) -> int {
    held(
        running(
            v,
            c,
            inner,
            lane_of(c, inner, o),
            reverse,
            summed(c, reverse, exclusive, step_of(c, inner, o)),
        ),
    )
}

/// The running sums of an integer tensor, added up in double precision.
pub open spec fn int_cumsum_of(
    t: TensorView,
    axis: int,
    exclusive: bool,
    reverse: bool,
) -> Outcome<TensorView> {
    let a = front_axis(axis, t.shape.len() as int);
    match fault(t) {
        Some(k) => Err(k),
        None => if !(0 <= a < t.shape.len()) {
            Err(Kind::Tensor)
        } else {
            match ints_of(t) {
                Err(k) => Err(k),
                Ok(v) => returned_of(
                    int_tensor(
                        t.shape,
                        Seq::new(
                            v.len(),
                            |o: int|
                                int_running_at(
                                    v,
                                    t.shape[a] as int,
                                    suffix(t.shape, a + 1),
                                    exclusive,
                                    reverse,
                                    o,
                                ) as i64,
                        ),
                    ),
                    t.dtype,
                ),
            }
        },
    }
}

/// Whether `sums[r]` holds the sums along lane `r`, from zero, as `add` gives them.
pub open spec fn float_lane<A: Fn(u64, u32) -> u64>(
    v: Seq<u32>,
    c: int,
    inner: int,
    reverse: bool,
    add_to: A,
    sums: Seq<Seq<u64>>,
    r: int,
) -> bool {
    &&& sums[r].len() == c + 1
    &&& sums[r][0] == 0
    &&& forall|s: int|
        0 <= s < c ==> call_ensures(
            add_to,
            (#[trigger] sums[r][s], v[lane_place(c, inner, r, walk(c, reverse, s))]),
            sums[r][s + 1],
        )
}

/// Whether `out` holds the running sums of `v`, added up by `add_to` and rounded by `narrow`.
pub open spec fn float_running<A: Fn(u64, u32) -> u64, N: Fn(u64) -> u32>(
    v: Seq<u32>,
    out: Seq<u32>,
    c: int,
    inner: int,
    exclusive: bool,
    reverse: bool,
    add_to: A,
    narrow: N,
    sums: Seq<Seq<u64>>,
) -> bool {
    &&& out.len() == v.len()
    &&& sums.len() == lane_count(v.len() as int, c)
    &&& forall|r: int|
        0 <= r < sums.len() ==> #[trigger] float_lane(v, c, inner, reverse, add_to, sums, r)
    &&& forall|o: int|
        0 <= o < out.len() ==> call_ensures(
            narrow,
            (sums[lane_of(c, inner, o)][summed(c, reverse, exclusive, step_of(c, inner, o))],),
            #[trigger] out[o],
        )
}

/// Whether `r` is the running sum of a single-precision tensor.
pub open spec fn float_cumsum_by<A: Fn(u64, u32) -> u64, N: Fn(u64) -> u32>(
    t: TensorView,
    axis: int,
    exclusive: bool,
    reverse: bool,
    add_to: A,
    narrow: N,
    r: Result<HostTensor>,
) -> bool {
    let a = front_axis(axis, t.shape.len() as int);
    match fault(t) {
        Some(k) => r matches Err(e) && e.kind() == k,
        None => if !(0 <= a < t.shape.len()) {
            r matches Err(e) && e.kind() == Kind::Tensor
        } else {
            r matches Ok(h) && exists|out: Seq<u32>, sums: Seq<Seq<u64>>|
                h@ == float_tensor(t.shape, out) && #[trigger] float_running(
                    floats_of(t)->Ok_0,
                    out,
                    t.shape[a] as int,
                    suffix(t.shape, a + 1),
                    exclusive,
                    reverse,
                    add_to,
                    narrow,
                    sums,
                )
        },
    }
}

/// Sums stay below this power of two: beyond it no 64-bit integer changes them.
pub open spec fn sum_bound() -> nat {
    118
}

fn digits128(n: u128) -> (r: u32)
    ensures
        r == bit_length(n as nat),
        r <= 128,
{
    let mut m: u128 = n;
    let mut k: u32 = 0;
    proof {
        lemma_bit_length(n as nat);
        lemma2_to64();
        lemma_pow2_adds(64, 64);
        lemma_length_limit(n as nat);
    }
    while m > 0
        invariant
            k + bit_length(m as nat) == bit_length(n as nat),
            bit_length(n as nat) <= 128,
        decreases m,
    {
        m = m / 2;
        k = k + 1;
    }
    k
}

proof fn lemma_length_limit(n: nat)
    requires
        n < 0x1_0000_0000_0000_0000 * 0x1_0000_0000_0000_0000,
    ensures
        bit_length(n) <= 128,
{
    lemma_bit_length(n);
    lemma2_to64();
    lemma_pow2_adds(64, 64);
    if bit_length(n) > 128 {
        if bit_length(n) > 129 {
            lemma_pow2_strictly_increases(128, (bit_length(n) - 1) as nat);
        }
    }
}

fn power128(k: u32) -> (r: u128)
    requires
        k <= 120,
    ensures
        r == pow2(k as nat),
        r >= 1,
{
    let mut r: u128 = 1;
    let mut i: u32 = 0;
    proof {
        lemma2_to64();
    }
    while i < k
        invariant
            i <= k,
            k <= 120,
            r == pow2(i as nat),
        decreases k - i,
    {
        proof {
            lemma2_to64();
            lemma_pow2_adds(64, 60);
            lemma_pow2_unfold((i + 1) as nat);
            lemma_pow2_strictly_increases(i as nat, 124);
            assert(pow2(64) * pow2(60) < 0x8000_0000_0000_0000_0000_0000_0000_0000) by {
                lemma2_to64_rest();
            }
        }
        r = r * 2;
        i += 1;
    }
    proof {
        lemma_pow2_pos(k as nat);
    }
    r
}

proof fn lemma_round53_bound(n: nat)
    requires
        n <= pow2(sum_bound()) + pow2(63),
    ensures
        round53(n) <= pow2(sum_bound()),
        bit_length(n) <= 119,
        n <= pow2(63) ==> round53(n) <= pow2(63),
{
    lemma_bit_length(n);
    lemma2_to64();
    lemma2_to64_rest();
    let l = bit_length(n);
    if l > 119 {
        lemma_pow2_strictly_increases(63, 118);
        lemma_pow2_unfold(119);
        if l > 120 {
            lemma_pow2_strictly_increases(119, (l - 1) as nat);
        }
    }
    if l > 53 {
        let s = (l - 53) as nat;
        let u = pow2(s) as int;
        lemma_pow2_pos(s);
        lemma_pow2_adds(53, s);
        let q = n as int / u;
        let r = n as int % u;
        vstd::arithmetic::div_mod::lemma_fundamental_div_mod(n as int, u);
        let p53 = pow2(53) as int;
        assert(q < p53) by (nonlinear_arith)
            requires
                (n as int) < p53 * u,
                q == n as int / u,
                u > 0,
        ;
        let m = half_even(n, s) as int;
        assert(m <= p53);
        assert(m * u <= p53 * u) by (nonlinear_arith)
            requires
                m <= p53,
                u > 0,
        ;
        if l <= 118 {
            if l < 118 {
                lemma_pow2_strictly_increases(l, 118);
            }
            if n <= pow2(63) && l > 63 {
                if l > 64 {
                    lemma_pow2_strictly_increases(63, (l - 1) as nat);
                }
                assert(n == pow2(63));
                lemma_pow2_adds(52, 11);
                assert(l == 64 && s == 11);
                let p52 = pow2(52) as int;
                assert(q == p52 && r == 0) by (nonlinear_arith)
                    requires
                        n as int == p52 * u,
                        u > 0,
                        q == n as int / u,
                        r == n as int % u,
                ;
                assert(m == p52);
            } else if n <= pow2(63) && l < 63 {
                lemma_pow2_strictly_increases(l, 63);
            }
        } else {
            assert(s == 66);
            lemma_pow2_adds(52, 66);
            lemma_pow2_adds(63, 3);
            let p52 = pow2(52) as int;
            let p63 = pow2(63) as int;
            assert(pow2(3) == 8);
            assert(u == p63 * 8);
            assert(q == p52 && r <= p63) by (nonlinear_arith)
                requires
                    p52 * u <= n as int,
                    n as int <= p52 * u + p63,
                    u == p63 * 8,
                    p63 > 0,
                    q == n as int / u,
                    r == n as int % u,
            ;
            assert(m == p52);
        }
    } else {
        if l < 63 {
            lemma_pow2_strictly_increases(l, 118);
        }
    }
}

fn round_double(n: u128) -> (r: u128)
    requires
        n <= pow2(sum_bound()) + pow2(63),
    ensures
        r == round53(n as nat),
        r <= pow2(sum_bound()),
        n <= pow2(63) ==> r <= pow2(63),
{
    proof {
        lemma_round53_bound(n as nat);
        lemma2_to64();
    }
    let l: u32 = digits128(n);
    if l <= 53 {
        return n;
    }
    let s: u32 = l - 53;
    let u: u128 = power128(s);
    let q: u128 = n / u;
    let r: u128 = n % u;
    let half: u128 = u / 2;
    proof {
        lemma_pow2_unfold(s as nat);
        lemma_sum_limit();
        assert(u == 2 * half);
        assert(q <= n) by (nonlinear_arith)
            requires
                q == n / u,
                u >= 1,
        ;
    }
    let m: u128 = if r > half || (r == half && q % 2 == 1) {
        q + 1
    } else {
        q
    };
    proof {
        assert(m as nat == half_even(n as nat, s as nat));
        lemma_sum_limit();
    }
    m * u
}

proof fn lemma_sum_limit()
    ensures
        pow2(sum_bound()) + pow2(63) < 0x4000_0000_0000_0000_0000_0000_0000_0000,
        pow2(63) == 0x8000_0000_0000_0000,
{
    lemma2_to64();
    lemma2_to64_rest();
    lemma_pow2_adds(64, 54);
}

/// `v` in double precision.
fn to_double(v: i128) -> (r: i128)
    requires
        -(pow2(sum_bound()) + pow2(63)) <= v <= pow2(sum_bound()) + pow2(63),
    ensures
        r == double(v as int),
        -(pow2(sum_bound()) as int) <= r <= pow2(sum_bound()),
        -(pow2(63) as int) <= v <= pow2(63) ==> -(pow2(63) as int) <= r <= pow2(63),
{
    proof {
        lemma_sum_limit();
    }
    if v < 0 {
        -(round_double((-v) as u128) as i128)
    } else {
        round_double(v as u128) as i128
    }
}

/// Whether the element at place `o` was reached before step `s` of lane `r`.
spec fn reached(c: int, inner: int, reverse: bool, r: int, s: int, o: int) -> bool {
    lane_of(c, inner, o) < r || (lane_of(c, inner, o) == r && walk(c, reverse, step_of(c, inner, o))
        < s)
}

/// The running sums of `v`.
fn int_cumsum(
    v: &Vec<i64>,
    c: usize,
    inner: usize,
    exclusive: bool,
    reverse: bool,
    Ghost(outer): Ghost<int>,
) -> (out: Vec<i64>)
    requires
        c >= 1,
        inner >= 1,
        outer >= 1,
        v@.len() == outer * (c * inner),
    ensures
        out@ == Seq::new(
            v@.len(),
            |o: int| int_running_at(v@, c as int, inner as int, exclusive, reverse, o) as i64,
        ),
{
    let n: usize = v.len();
    let mut out: Vec<i64> = vec![0i64; n];
    let ghost ci = c as int;
    let ghost ii = inner as int;
    proof {
        assert(ci * ii >= 1) by (nonlinear_arith)
            requires
                ci >= 1,
                ii >= 1,
        ;
        assert(ci * ii <= outer * (ci * ii)) by (nonlinear_arith)
            requires
                outer >= 1,
                ci * ii >= 1,
        ;
        assert(outer * (ci * ii) == (outer * ii) * ci) by (nonlinear_arith);
        let m = outer * ii;
        assert(n as int / ci == m) by (nonlinear_arith)
            requires
                n as int == m * ci,
                ci >= 1,
        ;
        lemma_sum_limit();
        assert forall|o: int| 0 <= o < n implies !(#[trigger] reached(ci, ii, reverse, 0, 0, o)) by {
            lemma_lane_of(ci, ii, o);
        }
    }
    let block: usize = c * inner;
    let rows: usize = n / c;
    let mut r: usize = 0;
    while r < rows
        invariant
            n == v@.len(),
            n == out@.len(),
            r <= rows,
            rows == outer * inner,
            block == c * inner,
            c == ci,
            inner == ii,
            c >= 1,
            inner >= 1,
            outer >= 1,
            v@.len() == outer * (c * inner),
            pow2(63) == 0x8000_0000_0000_0000,
            pow2(sum_bound()) + pow2(63) < 0x4000_0000_0000_0000_0000_0000_0000_0000,
            forall|o: int|
                0 <= o < n && #[trigger] reached(ci, ii, reverse, r as int, 0, o) ==> out@[o]
                    == int_running_at(v@, ci, ii, exclusive, reverse, o),
        decreases rows - r,
    {
        proof {
            lemma_lane_bound(ci, ii, outer, r as int, 0);
            let q = (r / inner) as int;
            assert(0 <= q) by (nonlinear_arith)
                requires
                    q == r / inner,
                    inner >= 1,
            ;
            assert(0 <= q * (ci * ii)) by (nonlinear_arith)
                requires
                    0 <= q,
                    ci >= 1,
                    ii >= 1,
            ;
        }
        let base: usize = (r / inner) * block + r % inner;
        let mut acc: i128 = 0;
        let mut s: usize = 0;
        while s < c
            invariant
                n == v@.len(),
                n == out@.len(),
                s <= c,
                r < rows,
                rows == outer * inner,
                c == ci,
                inner == ii,
                c >= 1,
                inner >= 1,
                outer >= 1,
                v@.len() == outer * (c * inner),
                base == lane_place(ci, ii, r as int, 0),
                pow2(63) == 0x8000_0000_0000_0000,
                pow2(sum_bound()) + pow2(63) < 0x4000_0000_0000_0000_0000_0000_0000_0000,
                acc == running(v@, ci, ii, r as int, reverse, s as int),
                -(pow2(sum_bound()) as int) <= acc <= pow2(sum_bound()),
                forall|o: int|
                    0 <= o < n && #[trigger] reached(ci, ii, reverse, r as int, s as int, o)
                        ==> out@[o] == int_running_at(v@, ci, ii, exclusive, reverse, o),
            decreases c - s,
        {
            let k: usize = if reverse {
                c - 1 - s
            } else {
                s
            };
            proof {
                lemma_lane_bound(ci, ii, outer, r as int, k as int);
                lemma_lane_place(ci, ii, r as int, k as int);
                assert(0 <= k * inner) by (nonlinear_arith);
                assert(lane_place(ci, ii, r as int, k as int) == base + k * inner);
            }
            let index: usize = base + k * inner;
            let d: i128 = to_double(v[index] as i128);
            let next: i128 = to_double(acc + d);
            let w: i128 = if exclusive {
                acc
            } else {
                next
            };
            let clamped: i64 = if w > i64::MAX as i128 {
                i64::MAX
            } else if w < i64::MIN as i128 {
                i64::MIN
            } else {
                w as i64
            };
            let ghost was = out@;
            out.set(index, clamped);
            proof {
                assert(next == running(v@, ci, ii, r as int, reverse, s + 1));
                assert(clamped == int_running_at(v@, ci, ii, exclusive, reverse, index as int));
                assert forall|o: int|
                    0 <= o < n && #[trigger] reached(
                        ci,
                        ii,
                        reverse,
                        r as int,
                        s + 1,
                        o,
                    ) implies out@[o] == int_running_at(v@, ci, ii, exclusive, reverse, o) by {
                    lemma_lane_of(ci, ii, o);
                    if o != index {
                        assert(reached(ci, ii, reverse, r as int, s as int, o));
                        assert(out@[o] == was[o]);
                    }
                }
            }
            acc = next;
            s += 1;
        }
        proof {
            assert forall|o: int|
                0 <= o < n && #[trigger] reached(ci, ii, reverse, r + 1, 0, o) implies out@[o]
                == int_running_at(v@, ci, ii, exclusive, reverse, o) by {
                lemma_lane_of(ci, ii, o);
                assert(reached(ci, ii, reverse, r as int, c as int, o));
            }
        }
        r += 1;
    }
    proof {
        assert forall|o: int| 0 <= o < n implies out@[o] == int_running_at(
            v@,
            ci,
            ii,
            exclusive,
            reverse,
            o,
        ) by {
            lemma_lane_count(ci, ii, outer, o);
            assert(reached(ci, ii, reverse, rows as int, 0, o));
        }
        assert(out@ =~= Seq::new(
            v@.len(),
            |o: int| int_running_at(v@, ci, ii, exclusive, reverse, o) as i64,
        ));
    }
    out
}

/// Running sums along one axis. `reverse` starts from the end; `exclusive` leaves the element
/// itself out. Integers are added in double precision and held within 64 bits. Sums of
/// single-precision numbers are formed by `add_to`, from the bits of a double-precision sum
/// and of the next element, and rounded by `narrow`.
pub fn cumsum<A: Fn(u64, u32) -> u64, N: Fn(u64) -> u32>(
    x: &HostTensor,
    axis: i64,
    exclusive: bool,
    reverse: bool,
    add_to: A,
    narrow: N,
) -> (r: Result<HostTensor>)
    requires
        x.shape@.len() <= i64::MAX,
        forall|s: u64, e: u32| #[trigger] call_requires(add_to, (s, e)),
        forall|s: u64| #[trigger] call_requires(narrow, (s,)),
    ensures
        if x.dtype == FLOAT {
            float_cumsum_by(x@, axis as int, exclusive, reverse, add_to, narrow, r)
        } else {
            gives(r, int_cumsum_of(x@, axis as int, exclusive, reverse))
        },
{
    match x.validate() {
        Ok(_) => {},
        Err(e) => {
            return Err(e);
        },
    }
    let rank: i64 = x.shape.len() as i64;
    let a: i64 = if axis < 0 {
        axis + rank
    } else {
        axis
    };
    if a < 0 || a >= rank {
        return Err(invalid_tensor("axis out of range"));
    }
    let a: usize = a as usize;
    proof {
        lemma_sound_len(x@);
        lemma_count(x.shape@);
    }
    let ghost c0 = x.shape@[a as int] as int;
    let ghost inner0 = suffix(x.shape@, a + 1);
    if x.dtype == FLOAT {
        let v = match x.to_f32() {
            Ok(v) => v,
            Err(e) => {
                return Err(e);
            },
        };
        if v.len() == 0 {
            let none: Vec<u32> = Vec::new();
            proof {
                let f = front_axis(axis as int, x@.shape.len() as int);
                assert(f == a);
                assert(float_running(
                    floats_of(x@)->Ok_0,
                    none@,
                    x@.shape[f] as int,
                    suffix(x@.shape, f + 1),
                    exclusive,
                    reverse,
                    add_to,
                    narrow,
                    Seq::<Seq<u64>>::empty(),
                ));
            }
            return Ok(HostTensor::from_f32(copy_dims(x.shape.as_slice()), none.as_slice()));
        }
        proof {
            lemma_nonempty(x.shape@);
            lemma_axis_split(x.shape@, a as int);
            lemma_axis_small(v@.len() as int, c0, inner0);
        }
        let c: usize = x.shape[a] as usize;
        let inner: usize = inner_count(x.shape.as_slice(), a);
        let (out, Ghost(sums)) = float_cumsum(
            &v,
            c,
            inner,
            exclusive,
            reverse,
            add_to,
            narrow,
            Ghost(product(x.shape@.take(a as int))),
        );
        let t = HostTensor::from_f32(copy_dims(x.shape.as_slice()), out.as_slice());
        proof {
            let f = front_axis(axis as int, x@.shape.len() as int);
            assert(f == a);
            assert(t@ == float_tensor(x.shape@, out@));
            assert(float_running(
                floats_of(x@)->Ok_0,
                out@,
                x@.shape[f] as int,
                suffix(x@.shape, f + 1),
                exclusive,
                reverse,
                add_to,
                narrow,
                sums,
            ));
        }
        Ok(t)
    } else {
        let v = match x.to_i64() {
            Ok(v) => v,
            Err(e) => {
                return Err(e);
            },
        };
        let out = if v.len() == 0 {
            Vec::new()
        } else {
            proof {
                lemma_nonempty(x.shape@);
                lemma_axis_split(x.shape@, a as int);
                lemma_axis_small(v@.len() as int, c0, inner0);
            }
            let c: usize = x.shape[a] as usize;
            let inner: usize = inner_count(x.shape.as_slice(), a);
            int_cumsum(
                &v,
                c,
                inner,
                exclusive,
                reverse,
                Ghost(product(x.shape@.take(a as int))),
            )
        };
        proof {
            assert(out@ =~= Seq::new(
                v@.len(),
                |o: int| int_running_at(v@, c0, inner0, exclusive, reverse, o) as i64,
            ));
        }
        returned(
            &HostTensor::from_i64(copy_dims(x.shape.as_slice()), out.as_slice()),
            x.dtype,
        )
    }
}

proof fn lemma_axis_small(n: int, c: int, inner: int)
    requires
        c * inner <= n,
        c >= 1,
        inner >= 1,
    ensures
        c <= n,
{
    assert(c <= c * inner) by (nonlinear_arith)
        requires
            c >= 1,
            inner >= 1,
    ;
}

/// The running sums of single-precision numbers, and the sums that led to them.
fn float_cumsum<A: Fn(u64, u32) -> u64, N: Fn(u64) -> u32>(
    v: &Vec<u32>,
    c: usize,
    inner: usize,
    exclusive: bool,
    reverse: bool,
    add_to: A,
    narrow: N,
    Ghost(outer): Ghost<int>,
) -> (r: (Vec<u32>, Ghost<Seq<Seq<u64>>>))
    requires
        c >= 1,
        inner >= 1,
        outer >= 1,
        v@.len() == outer * (c * inner),
        forall|s: u64, e: u32| #[trigger] call_requires(add_to, (s, e)),
        forall|s: u64| #[trigger] call_requires(narrow, (s,)),
    ensures
        float_running(
            v@,
            r.0@,
            c as int,
            inner as int,
            exclusive,
            reverse,
            add_to,
            narrow,
            r.1@,
        ),
{
    let n: usize = v.len();
    let mut out: Vec<u32> = vec![0u32; n];
    let ghost ci = c as int;
    let ghost ii = inner as int;
    let ghost mut sums: Seq<Seq<u64>> = Seq::empty();
    proof {
        assert(ci * ii >= 1) by (nonlinear_arith)
            requires
                ci >= 1,
                ii >= 1,
        ;
        assert(ci * ii <= outer * (ci * ii)) by (nonlinear_arith)
            requires
                outer >= 1,
                ci * ii >= 1,
        ;
        assert(outer * (ci * ii) == (outer * ii) * ci) by (nonlinear_arith);
        let m = outer * ii;
        assert(n as int / ci == m) by (nonlinear_arith)
            requires
                n as int == m * ci,
                ci >= 1,
        ;
        assert forall|o: int| 0 <= o < n implies !(#[trigger] reached(ci, ii, reverse, 0, 0, o)) by {
            lemma_lane_of(ci, ii, o);
        }
    }
    let block: usize = c * inner;
    let rows: usize = n / c;
    let mut r: usize = 0;
    while r < rows
        invariant
            n == v@.len(),
            n == out@.len(),
            r <= rows,
            rows == outer * inner,
            rows == lane_count(v@.len() as int, ci),
            block == c * inner,
            c == ci,
            inner == ii,
            c >= 1,
            inner >= 1,
            outer >= 1,
            v@.len() == outer * (c * inner),
            forall|s: u64, e: u32| #[trigger] call_requires(add_to, (s, e)),
            forall|s: u64| #[trigger] call_requires(narrow, (s,)),
            sums.len() == r,
            forall|q: int|
                0 <= q < r ==> #[trigger] float_lane(v@, ci, ii, reverse, add_to, sums, q),
            forall|o: int|
                0 <= o < n && #[trigger] reached(ci, ii, reverse, r as int, 0, o) ==> call_ensures(
                    narrow,
                    (sums[lane_of(ci, ii, o)][summed(ci, reverse, exclusive, step_of(ci, ii, o))],),
                    out@[o],
                ),
        decreases rows - r,
    {
        proof {
            lemma_lane_bound(ci, ii, outer, r as int, 0);
            let q = (r / inner) as int;
            assert(0 <= q) by (nonlinear_arith)
                requires
                    q == r / inner,
                    inner >= 1,
            ;
            assert(0 <= q * (ci * ii)) by (nonlinear_arith)
                requires
                    0 <= q,
                    ci >= 1,
                    ii >= 1,
            ;
        }
        let base: usize = (r / inner) * block + r % inner;
        let mut acc: u64 = 0;
        let ghost mut lane: Seq<u64> = seq![0u64];
        let mut s: usize = 0;
        while s < c
            invariant
                n == v@.len(),
                n == out@.len(),
                s <= c,
                r < rows,
                rows == outer * inner,
                c == ci,
                inner == ii,
                c >= 1,
                inner >= 1,
                outer >= 1,
                v@.len() == outer * (c * inner),
                base == lane_place(ci, ii, r as int, 0),
                forall|s: u64, e: u32| #[trigger] call_requires(add_to, (s, e)),
                forall|s: u64| #[trigger] call_requires(narrow, (s,)),
                sums.len() == r,
                lane.len() == s + 1,
                lane[0] == 0,
                lane[s as int] == acc,
                forall|t: int|
                    0 <= t < s ==> call_ensures(
                        add_to,
                        (#[trigger] lane[t], v@[lane_place(ci, ii, r as int, walk(ci, reverse, t))]),
                        lane[t + 1],
                    ),
                forall|o: int|
                    0 <= o < n && #[trigger] reached(ci, ii, reverse, r as int, s as int, o)
                        ==> call_ensures(
                        narrow,
                        (sums.push(lane)[lane_of(ci, ii, o)][summed(
                            ci,
                            reverse,
                            exclusive,
                            step_of(ci, ii, o),
                        )],),
                        out@[o],
                    ),
            decreases c - s,
        {
            let k: usize = if reverse {
                c - 1 - s
            } else {
                s
            };
            proof {
                lemma_lane_bound(ci, ii, outer, r as int, k as int);
                lemma_lane_place(ci, ii, r as int, k as int);
                assert(0 <= k * inner) by (nonlinear_arith);
                assert(lane_place(ci, ii, r as int, k as int) == base + k * inner);
            }
            let index: usize = base + k * inner;
            let next: u64 = add_to(acc, v[index]);
            let w: u32 = if exclusive {
                narrow(acc)
            } else {
                narrow(next)
            };
            let ghost was = out@;
            let ghost before = lane;
            out.set(index, w);
            proof {
                lane = lane.push(next);
                assert forall|o: int|
                    0 <= o < n && #[trigger] reached(ci, ii, reverse, r as int, s + 1, o) implies call_ensures(
                    narrow,
                    (sums.push(lane)[lane_of(ci, ii, o)][summed(
                        ci,
                        reverse,
                        exclusive,
                        step_of(ci, ii, o),
                    )],),
                    out@[o],
                ) by {
                    lemma_lane_of(ci, ii, o);
                    let t = summed(ci, reverse, exclusive, step_of(ci, ii, o));
                    if o != index {
                        assert(reached(ci, ii, reverse, r as int, s as int, o));
                        assert(out@[o] == was[o]);
                        if lane_of(ci, ii, o) == r {
                            assert(sums.push(before)[r as int][t] == lane[t]);
                        } else {
                            assert(sums.push(before)[lane_of(ci, ii, o)] == sums.push(
                                lane,
                            )[lane_of(ci, ii, o)]);
                        }
                    } else {
                        assert(sums.push(lane)[r as int] == lane);
                    }
                }
            }
            acc = next;
            s += 1;
        }
        proof {
            let all = sums.push(lane);
            assert forall|q: int| 0 <= q < r + 1 implies #[trigger] float_lane(
                v@,
                ci,
                ii,
                reverse,
                add_to,
                all,
                q,
            ) by {
                if q < r {
                    assert(float_lane(v@, ci, ii, reverse, add_to, sums, q));
                    assert(all[q] == sums[q]);
                } else {
                    assert(all[q] == lane);
                }
            }
            assert forall|o: int|
                0 <= o < n && #[trigger] reached(ci, ii, reverse, r + 1, 0, o) implies call_ensures(
                narrow,
                (all[lane_of(ci, ii, o)][summed(ci, reverse, exclusive, step_of(ci, ii, o))],),
                out@[o],
            ) by {
                lemma_lane_of(ci, ii, o);
                assert(reached(ci, ii, reverse, r as int, c as int, o));
            }
            sums = all;
        }
        r += 1;
    }
    proof {
        assert forall|o: int| 0 <= o < n implies call_ensures(
            narrow,
            (sums[lane_of(ci, ii, o)][summed(ci, reverse, exclusive, step_of(ci, ii, o))],),
            #[trigger] out@[o],
        ) by {
            lemma_lane_count(ci, ii, outer, o);
            assert(reached(ci, ii, reverse, rows as int, 0, o));
        }
    }
    (out, Ghost(sums))
}

/// Numbers of at most 2^53 in size are double-precision numbers.
proof fn lemma_double_exact(v: int)
    requires
        -pow2(53) <= v <= pow2(53),
    ensures
        double(v) == v,
{
    let n = if v < 0 {
        (-v) as nat
    } else {
        v as nat
    };
    lemma_bit_length(n);
    if bit_length(n) > 53 {
        let b = (bit_length(n) - 1) as nat;
        if b > 53 {
            lemma_pow2_strictly_increases(53, b);
            assert(false);
        }
        lemma2_to64();
        lemma2_to64_rest();
        assert(n == pow2(53));
        let s = (bit_length(n) - 53) as nat;
        assert(s == 1 && pow2(s) == 2);
        assert(n == 0x20_0000_0000_0000);
        assert(half_even(n, s) == 0x10_0000_0000_0000);
    }
}

/// **Inclusive sums are exclusive sums plus the element**, added in double precision; up to 2^53
/// in size that is the sum itself.
pub proof fn law_inclusive_adds(v: Seq<i64>, c: int, inner: int, reverse: bool, o: int)
    requires
        c >= 1,
        inner >= 1,
        0 <= o < v.len(),
    ensures
        ({
            let r = lane_of(c, inner, o);
            let k = step_of(c, inner, o);
            let before = running(v, c, inner, r, reverse, summed(c, reverse, true, k));
            let after = running(v, c, inner, r, reverse, summed(c, reverse, false, k));
            &&& after == double(before + double(v[o] as int))
            &&& -pow2(53) <= v[o] <= pow2(53) && -pow2(53) <= before + v[o] <= pow2(53)
                ==> int_running_at(v, c, inner, false, reverse, o) == int_running_at(
                v,
                c,
                inner,
                true,
                reverse,
                o,
            ) + v[o]
        }),
{
    let r = lane_of(c, inner, o);
    let k = step_of(c, inner, o);
    lemma_lane_of(c, inner, o);
    let s = summed(c, reverse, true, k);
    assert(0 <= s < c);
    assert(walk(c, reverse, s) == k);
    let before = running(v, c, inner, r, reverse, s);
    assert(running(v, c, inner, r, reverse, s + 1) == double(before + double(v[o] as int)));
    if -pow2(53) <= v[o] <= pow2(53) && -pow2(53) <= before + v[o] <= pow2(53) {
        lemma_double_exact(v[o] as int);
        lemma_double_exact(before + v[o]);
        lemma2_to64_rest();
    }
}

// --- selection --------------------------------------------------------------------------

/// Numbers that order as the elements do: integers themselves, and the places of
/// single-precision numbers in their total order.
pub open spec fn ranks_of(t: TensorView) -> Outcome<Seq<i64>> {
    if t.dtype == FLOAT {
        match floats_of(t) {
            Ok(v) => Ok(v.map_values(|b: u32| total_place(b) as i64)),
            Err(k) => Err(k),
        }
    } else {
        ints_of(t)
    }
}

fn ranks(x: &HostTensor) -> (r: Result<Vec<i64>>)
    ensures
        match r {
            Ok(v) => ranks_of(x@) == Ok::<Seq<i64>, Kind>(v@),
            Err(e) => ranks_of(x@) == Err::<Seq<i64>, Kind>(e.kind()),
        },
{
    if x.dtype != FLOAT {
        return x.to_i64();
    }
    let bits = match x.to_f32() {
        Ok(v) => v,
        Err(e) => {
            return Err(e);
        },
    };
    let n: usize = bits.len();
    let mut v: Vec<i64> = Vec::new();
    let mut i: usize = 0;
    while i < n
        invariant
            n == bits@.len(),
            i <= n,
            v@ == bits@.take(i as int).map_values(|b: u32| total_place(b) as i64),
        decreases n - i,
    {
        v.push(total_order(bits[i]));
        i += 1;
        assert(v@ =~= bits@.take(i as int).map_values(|b: u32| total_place(b) as i64));
    }
    assert(bits@.take(n as int) =~= bits@);
    Ok(v)
}

/// Whether element `a` of a lane is chosen before element `b`: by value, and by position
/// where the values are the same.
pub open spec fn chosen_before(
    v: Seq<i64>,
    c: int,
    inner: int,
    r: int,
    largest: bool,
    a: int,
    b: int,
) -> bool {
    let x = v[lane_place(c, inner, r, a)];
    let y = v[lane_place(c, inner, r, b)];
    if x == y {
        a < b
    } else {
        largest == (x > y)
    }
}

/// Whether `picks` are the first of lane `r`, in order.
pub open spec fn picks_first(
    v: Seq<i64>,
    c: int,
    inner: int,
    r: int,
    largest: bool,
    picks: Seq<int>,
) -> bool {
    &&& forall|j: int| 0 <= j < picks.len() ==> 0 <= #[trigger] picks[j] < c
    &&& forall|i: int, j: int|
        0 <= i < j < picks.len() ==> chosen_before(
            v,
            c,
            inner,
            r,
            largest,
            #[trigger] picks[i],
            #[trigger] picks[j],
        )
    &&& forall|j: int, b: int|
        0 <= j < picks.len() && 0 <= b < c && !picks.contains(b) ==> #[trigger] chosen_before(
            v,
            c,
            inner,
            r,
            largest,
            picks[j],
            b,
        )
}

/// The positions that `ind` lists for lane `r`, `k` of them.
pub open spec fn lane_picks(ind: Seq<i64>, k: int, inner: int, r: int) -> Seq<int> {
    Seq::new(k as nat, |j: int| ind[lane_place(k, inner, r, j)] as int)
}

/// Whether `ind` lists the positions of the first `k` of each lane.
pub open spec fn selects(
    v: Seq<i64>,
    c: int,
    inner: int,
    k: int,
    largest: bool,
    ind: Seq<i64>,
) -> bool {
    let rows = lane_count(v.len() as int, c);
    &&& ind.len() == rows * k
    &&& forall|r: int|
        0 <= r < rows ==> picks_first(v, c, inner, r, largest, #[trigger] lane_picks(ind, k, inner, r))
}

/// Where the element at place `o` of a selection comes from.
pub open spec fn selected_from(ind: Seq<i64>, c: int, inner: int, k: int, o: int) -> int {
    lane_place(c, inner, lane_of(k, inner, o), ind[o] as int)
}

/// The elements of the tensor at the positions that `ind` lists along the axis.
pub open spec fn selection(t: TensorView, a: int, k: int, ind: Seq<i64>) -> TensorView {
    TensorView {
        dtype: t.dtype,
        shape: t.shape.update(a, k as i64),
        data: picked(
            t.data,
            size_of_code(t.dtype) as int,
            ind.len() as int,
            |o: int| selected_from(ind, t.shape[a] as int, suffix(t.shape, a + 1), k, o),
        ),
    }
}

/// Whether `r` is the selection of the first `k` along the axis: the elements themselves, and
/// their positions.
pub open spec fn top_k_gives(
    t: TensorView,
    k: int,
    axis: int,
    largest: bool,
    r: Result<(HostTensor, HostTensor)>,
) -> bool {
    let a = front_axis(axis, t.shape.len() as int);
    match fault(t) {
        Some(f) => r matches Err(e) && e.kind() == f,
        None => if !(0 <= a < t.shape.len()) || k > t.shape[a] {
            r matches Err(e) && e.kind() == Kind::Tensor
        } else {
            match ranks_of(t) {
                Err(f) => r matches Err(e) && e.kind() == f,
                Ok(v) => r matches Ok((vt, it)) && exists|ind: Seq<i64>|
                    #[trigger] selects(
                        v,
                        t.shape[a] as int,
                        suffix(t.shape, a + 1),
                        k,
                        largest,
                        ind,
                    ) && vt@ == selection(t, a, k, ind) && it@ == int_tensor(
                        t.shape.update(a, k as i64),
                        ind,
                    ),
            }
        },
    }
}

/// The first `k` positions of a lane.
fn first_of_lane(
    v: &Vec<i64>,
    c: usize,
    inner: usize,
    r: usize,
    k: usize,
    largest: bool,
    Ghost(outer): Ghost<int>,
) -> (picks: Vec<usize>)
    requires
        c >= 1,
        k <= c,
        inner >= 1,
        outer >= 1,
        r < outer * inner,
        v@.len() == outer * (c * inner),
    ensures
        picks@.len() == k,
        picks_first(
            v@,
            c as int,
            inner as int,
            r as int,
            largest,
            picks@.map_values(|p: usize| p as int),
        ),
{
    let n: usize = v.len();
    let ghost ci = c as int;
    let ghost ii = inner as int;
    let ghost ri = r as int;
    proof {
        lemma_lane_bound(ci, ii, outer, ri, 0);
        assert(ci * ii >= 1) by (nonlinear_arith)
            requires
                ci >= 1,
                ii >= 1,
        ;
        assert(ci * ii <= outer * (ci * ii)) by (nonlinear_arith)
            requires
                outer >= 1,
                ci * ii >= 1,
        ;
        let q = (r / inner) as int;
        assert(0 <= q) by (nonlinear_arith)
            requires
                q == r / inner,
                inner >= 1,
        ;
        assert(0 <= q * (ci * ii)) by (nonlinear_arith)
            requires
                0 <= q,
                ci * ii >= 1,
        ;
    }
    let block: usize = c * inner;
    let base: usize = (r / inner) * block + r % inner;
    let mut keys: Vec<i64> = Vec::new();
    let mut i: usize = 0;
    while i < c
        invariant
            i <= c,
            c == ci,
            inner == ii,
            r == ri,
            inner >= 1,
            outer >= 1,
            r < outer * inner,
            n == v@.len(),
            v@.len() == outer * (c * inner),
            base == lane_place(ci, ii, ri, 0),
            keys@.len() == i,
            forall|b: int|
                0 <= b < i ==> #[trigger] keys@[b] == v@[lane_place(ci, ii, ri, b)],
        decreases c - i,
    {
        proof {
            lemma_lane_bound(ci, ii, outer, ri, i as int);
            assert(0 <= i * inner) by (nonlinear_arith);
            assert(lane_place(ci, ii, ri, i as int) == base + i * inner);
        }
        keys.push(v[base + i * inner]);
        i += 1;
    }
    let mut taken: Vec<bool> = vec![false; c];
    let mut picks: Vec<usize> = Vec::new();
    while picks.len() < k
        invariant
            c == ci,
            inner == ii,
            r == ri,
            k <= c,
            keys@.len() == c,
            taken@.len() == c,
            picks@.len() <= k,
            forall|b: int|
                0 <= b < c ==> #[trigger] keys@[b] == v@[lane_place(ci, ii, ri, b)],
            forall|b: int| 0 <= b < c ==> (#[trigger] taken@[b] <==> picks@.contains(b as usize)),
            forall|j: int| 0 <= j < picks@.len() ==> (#[trigger] picks@[j]) < c,
            forall|i: int, j: int|
                0 <= i < j < picks@.len() ==> chosen_before(
                    v@,
                    ci,
                    ii,
                    ri,
                    largest,
                    (#[trigger] picks@[i]) as int,
                    (#[trigger] picks@[j]) as int,
                ),
            forall|j: int, b: int|
                0 <= j < picks@.len() && 0 <= b < c && !taken@[b] ==> #[trigger] chosen_before(
                    v@,
                    ci,
                    ii,
                    ri,
                    largest,
                    picks@[j] as int,
                    b,
                ),
        decreases k - picks@.len(),
    {
        let mut best: Option<usize> = None;
        let mut i: usize = 0;
        while i < c
            invariant
                i <= c,
                c == ci,
                inner == ii,
                r == ri,
                keys@.len() == c,
                taken@.len() == c,
                forall|b: int|
                    0 <= b < c ==> #[trigger] keys@[b] == v@[lane_place(ci, ii, ri, b)],
                match best {
                    None => forall|b: int| 0 <= b < i ==> #[trigger] taken@[b],
                    Some(p) => p < i && !taken@[p as int] && forall|b: int|
                        0 <= b < i && !(#[trigger] taken@[b]) && b != p ==> chosen_before(
                            v@,
                            ci,
                            ii,
                            ri,
                            largest,
                            p as int,
                            b,
                        ),
                },
            decreases c - i,
        {
            if !taken[i] {
                match best {
                    None => {
                        best = Some(i);
                    },
                    Some(p) => {
                        let x: i64 = keys[i];
                        let y: i64 = keys[p];
                        if x != y && largest == (x > y) {
                            best = Some(i);
                        }
                    },
                }
            }
            i += 1;
        }
        match best {
            Some(p) => {
                let ghost was = picks@;
                let ghost flags = taken@;
                picks.push(p);
                taken.set(p, true);
                proof {
                    assert forall|b: int| 0 <= b < c implies (#[trigger] taken@[b]
                        <==> picks@.contains(b as usize)) by {
                        assert(flags[b] <==> was.contains(b as usize));
                        if was.contains(b as usize) {
                            let j = was.index_of(b as usize);
                            assert(picks@[j] == b as usize);
                        }
                        if b == p {
                            assert(picks@[was.len() as int] == p);
                        }
                        if picks@.contains(b as usize) && b != p {
                            let j = picks@.index_of(b as usize);
                            assert(was[j] == b as usize);
                        }
                    }
                    assert forall|j: int, b: int|
                        0 <= j < picks@.len() && 0 <= b < c && !taken@[b] implies #[trigger] chosen_before(
                        v@,
                        ci,
                        ii,
                        ri,
                        largest,
                        picks@[j] as int,
                        b,
                    ) by {
                        assert(!flags[b]);
                        if j < was.len() {
                            assert(chosen_before(v@, ci, ii, ri, largest, was[j] as int, b));
                        }
                    }
                    assert forall|i: int, j: int| 0 <= i < j < picks@.len() implies chosen_before(
                        v@,
                        ci,
                        ii,
                        ri,
                        largest,
                        (#[trigger] picks@[i]) as int,
                        (#[trigger] picks@[j]) as int,
                    ) by {
                        if j == was.len() {
                            assert(chosen_before(v@, ci, ii, ri, largest, was[i] as int, p as int));
                        }
                    }
                }
            },
            None => {
                proof {
                    lemma_all_taken(picks@, taken@, c as int);
                }
                return picks;
            },
        }
    }
    proof {
        let ps = picks@.map_values(|p: usize| p as int);
        assert forall|j: int, b: int|
            0 <= j < ps.len() && 0 <= b < c && !ps.contains(b) implies #[trigger] chosen_before(
            v@,
            ci,
            ii,
            ri,
            largest,
            ps[j],
            b,
        ) by {
            if taken@[b] {
                let q = picks@.index_of(b as usize);
                assert(ps[q] == b);
            }
            assert(chosen_before(v@, ci, ii, ri, largest, picks@[j] as int, b));
        }
    }
    picks
}

/// Fewer picks than elements leave one that was not taken.
proof fn lemma_all_taken(picks: Seq<usize>, taken: Seq<bool>, c: int)
    requires
        taken.len() == c,
        picks.len() < c,
        forall|b: int| 0 <= b < c ==> (#[trigger] taken[b] <==> picks.contains(b as usize)),
        c <= usize::MAX,
    ensures
        exists|b: int| 0 <= b < c && !(#[trigger] taken[b]),
{
    if forall|b: int| 0 <= b < c ==> #[trigger] taken[b] {
        let ps = picks.map_values(|p: usize| p as int);
        let range = vstd::set_lib::set_int_range(0, c);
        vstd::set_lib::lemma_int_range(0, c);
        assert forall|b: int| range.contains(b) implies ps.to_set().contains(b) by {
            assert(taken[b]);
            let i = picks.index_of(b as usize);
            assert(ps[i] == b);
        }
        vstd::seq_lib::seq_to_set_is_finite(ps);
        vstd::set_lib::lemma_len_subset(range, ps.to_set());
        ps.lemma_cardinality_of_set();
        assert(false);
    }
}

/// The first `k` along one axis, largest or smallest first, with their positions. Values of
/// the same rank come in the order of their positions.
pub fn top_k(x: &HostTensor, k: usize, axis: i64, largest: bool) -> (r: Result<
    (HostTensor, HostTensor),
>)
    requires
        x.shape@.len() <= i64::MAX,
        0 <= front_axis(axis as int, x.shape@.len() as int) < x.shape@.len() && fault(x@) is None
            ==> k > 0 || x.shape@[front_axis(axis as int, x.shape@.len() as int)] != 0,
    ensures
        top_k_gives(x@, k as int, axis as int, largest, r),
{
    match x.validate() {
        Ok(_) => {},
        Err(e) => {
            return Err(e);
        },
    }
    let rank: i64 = x.shape.len() as i64;
    let a: i64 = if axis < 0 {
        axis + rank
    } else {
        axis
    };
    if a < 0 || a >= rank {
        return Err(invalid_tensor("axis out of range"));
    }
    let a: usize = a as usize;
    proof {
        lemma_sound_len(x@);
        lemma_count(x.shape@);
    }
    if k as u64 > x.shape[a] as u64 {
        return Err(invalid_tensor("more asked for than the axis holds"));
    }
    let v = match ranks(x) {
        Ok(v) => v,
        Err(e) => {
            return Err(e);
        },
    };
    let ghost c0 = x.shape@[a as int] as int;
    let ghost inner0 = suffix(x.shape@, a + 1);
    let es: usize = elem_size(x.dtype);
    let mut data: Vec<u8> = Vec::new();
    let mut ind: Vec<i64> = Vec::new();
    if v.len() > 0 {
        proof {
            lemma_nonempty(x.shape@);
            lemma_axis_split(x.shape@, a as int);
            lemma_axis_small(v@.len() as int, c0, inner0);
        }
        let c: usize = x.shape[a] as usize;
        let inner: usize = inner_count(x.shape.as_slice(), a);
        let (bytes, is) = select_lanes(
            &v,
            x.data.as_slice(),
            es,
            c,
            inner,
            k,
            largest,
            Ghost(product(x.shape@.take(a as int))),
        );
        data = bytes;
        ind = is;
    } else {
        assert(selects(v@, c0, inner0, k as int, largest, ind@)) by {
            assert(0 * (k as int) == 0) by (nonlinear_arith);
        }
    }
    let mut out_shape = copy_dims(x.shape.as_slice());
    out_shape.set(a, k as i64);
    let index_shape = copy_dims(out_shape.as_slice());
    let vt = HostTensor { dtype: x.dtype, shape: out_shape, data };
    let it = HostTensor::from_i64(index_shape, ind.as_slice());
    proof {
        let f = front_axis(axis as int, x@.shape.len() as int);
        assert(f == a);
        assert(selects(
            ranks_of(x@)->Ok_0,
            x@.shape[f] as int,
            suffix(x@.shape, f + 1),
            k as int,
            largest,
            ind@,
        ));
        let want = |o: int| selected_from(ind@, x@.shape[f] as int, suffix(x@.shape, f + 1), k as int, o);
        assert(data@ == picked(x.data@, es as int, ind@.len() as int, want));
        assert(vt@ == selection(x@, f, k as int, ind@));
    }
    Ok((vt, it))
}

/// The bytes and the positions of the first `k` of every lane.
fn select_lanes(
    v: &Vec<i64>,
    data: &[u8],
    es: usize,
    c: usize,
    inner: usize,
    k: usize,
    largest: bool,
    Ghost(outer): Ghost<int>,
) -> (r: (Vec<u8>, Vec<i64>))
    requires
        c >= 1,
        c <= i64::MAX,
        k <= c,
        inner >= 1,
        outer >= 1,
        v@.len() == outer * (c * inner),
        data@.len() == v@.len() * es,
    ensures
        selects(v@, c as int, inner as int, k as int, largest, r.1@),
        r.0@ == picked(
            data@,
            es as int,
            r.1@.len() as int,
            |o: int| selected_from(r.1@, c as int, inner as int, k as int, o),
        ),
{
    let n: usize = v.len();
    let ghost ci = c as int;
    let ghost ii = inner as int;
    let ghost ki = k as int;
    proof {
        assert(outer * (ci * ii) == (outer * ii) * ci) by (nonlinear_arith);
        let m = outer * ii;
        assert(n as int / ci == m) by (nonlinear_arith)
            requires
                n as int == m * ci,
                ci >= 1,
        ;
    }
    let rows: usize = n / c;
    let mut picks: Vec<Vec<usize>> = Vec::new();
    let mut r: usize = 0;
    while r < rows
        invariant
            n == v@.len(),
            r <= rows,
            rows == outer * inner,
            c >= 1,
            k <= c,
            inner >= 1,
            outer >= 1,
            c == ci,
            inner == ii,
            v@.len() == outer * (c * inner),
            picks@.len() == r,
            forall|q: int|
                0 <= q < r ==> (#[trigger] picks@[q])@.len() == k && picks_first(
                    v@,
                    ci,
                    ii,
                    q,
                    largest,
                    picks@[q]@.map_values(|p: usize| p as int),
                ),
        decreases rows - r,
    {
        picks.push(first_of_lane(v, c, inner, r, k, largest, Ghost(outer)));
        r += 1;
    }
    let mut bytes: Vec<u8> = Vec::new();
    let mut ind: Vec<i64> = Vec::new();
    if k == 0 {
        proof {
            assert(rows * 0 == 0) by (nonlinear_arith);
            assert forall|r: int| 0 <= r < rows implies picks_first(
                v@,
                ci,
                ii,
                r,
                largest,
                #[trigger] lane_picks(ind@, ki, ii, r),
            ) by {}
        }
        return (bytes, ind);
    }
    proof {
        let ro = rows as int;
        assert(ki * ii >= 1) by (nonlinear_arith)
            requires
                ki >= 1,
                ii >= 1,
        ;
        assert(ro * ki <= n && 0 <= ro * ki) by (nonlinear_arith)
            requires
                n as int == ro * ci,
                ki <= ci,
                ro >= 0,
                ki >= 1,
        ;
        assert(ro * ki == outer * (ki * ii)) by (nonlinear_arith)
            requires
                ro == outer * ii,
        ;
        assert(ki * ii <= n) by (nonlinear_arith)
            requires
                n as int == outer * (ci * ii),
                outer >= 1,
                1 <= ki <= ci,
                ii >= 1,
        ;
    }
    let block: usize = k * inner;
    let total: usize = rows * k;
    let mut o: usize = 0;
    while o < total
        invariant
            n == v@.len(),
            total == rows * k,
            o <= total,
            block == k * inner,
            block >= 1,
            rows == outer * inner,
            total == outer * (k * inner),
            c >= 1,
            c <= i64::MAX,
            1 <= k,
            k <= c,
            inner >= 1,
            outer >= 1,
            c == ci,
            k == ki,
            inner == ii,
            v@.len() == outer * (c * inner),
            picks@.len() == rows,
            forall|q: int|
                0 <= q < rows ==> (#[trigger] picks@[q])@.len() == k && picks_first(
                    v@,
                    ci,
                    ii,
                    q,
                    largest,
                    picks@[q]@.map_values(|p: usize| p as int),
                ),
            ind@.len() == o,
            data@.len() == v@.len() * es,
            forall|p: int|
                0 <= p < o ==> #[trigger] ind@[p] == picks@[lane_of(ki, ii, p)]@[step_of(ki, ii, p)],
            bytes@ == picked(
                data@,
                es as int,
                o as int,
                |p: int| selected_from(ind@, ci, ii, ki, p),
            ),
        decreases total - o,
    {
        proof {
            lemma_lane_of(ki, ii, o as int);
            lemma_lane_count(ki, ii, outer, o as int);
            let q = (o / block) as int;
            assert(0 <= q * ii) by (nonlinear_arith)
                requires
                    q >= 0,
                    ii >= 1,
            ;
        }
        let r: usize = (o / block) * inner + o % inner;
        let j: usize = (o / inner) % k;
        assert(r == lane_of(ki, ii, o as int));
        assert(j == step_of(ki, ii, o as int));
        let p: usize = picks[r][j];
        proof {
            let ps = picks@[r as int]@.map_values(|p: usize| p as int);
            assert(ps[j as int] == p);
            assert(0 <= ps[j as int] < ci);
            lemma_lane_bound(ci, ii, outer, r as int, p as int);
            lemma_lane_bound(ci, ii, outer, r as int, 0);
            assert(0 <= p * inner) by (nonlinear_arith);
            let q = (r / inner) as int;
            assert(0 <= q) by (nonlinear_arith)
                requires
                    q == r / inner,
                    inner >= 1,
            ;
            assert(0 <= q * (ci * ii)) by (nonlinear_arith)
                requires
                    0 <= q,
                    ci >= 1,
                    ii >= 1,
            ;
            assert(ci * ii <= outer * (ci * ii)) by (nonlinear_arith)
                requires
                    outer >= 1,
                    ci >= 1,
                    ii >= 1,
            ;
            assert(0 <= ci * ii) by (nonlinear_arith)
                requires
                    ci >= 1,
                    ii >= 1,
            ;
        }
        let at: usize = (r / inner) * (c * inner) + r % inner + p * inner;
        assert(at == lane_place(ci, ii, r as int, p as int));
        let ghost was = ind@;
        ind.push(p as i64);
        proof {
            lemma_element_within(at as int, v@.len() as int, es as int);
            let f = |p: int| selected_from(was, ci, ii, ki, p);
            let g = |p: int| selected_from(ind@, ci, ii, ki, p);
            assert forall|q: int| 0 <= q < o implies #[trigger] f(q) == g(q) by {
                assert(was[q] == ind@[q]);
            }
            lemma_picked_same(data@, es as int, o as int, f, g);
            assert(g(o as int) == at);
        }
        push_element(&mut bytes, data, at, es);
        o += 1;
    }
    proof {
        assert forall|r: int| 0 <= r < rows implies picks_first(
            v@,
            ci,
            ii,
            r,
            largest,
            #[trigger] lane_picks(ind@, ki, ii, r),
        ) by {
            let ps = picks@[r]@.map_values(|p: usize| p as int);
            let got = lane_picks(ind@, ki, ii, r);
            assert forall|j: int| 0 <= j < ki implies got[j] == ps[j] by {
                lemma_lane_place(ki, ii, r, j);
                lemma_lane_bound(ki, ii, outer, r, j);
            }
            assert(got =~= ps);
        }
    }
    (bytes, ind)
}

} // verus!
