//! Whether an operation stays within what it can hold.
//!
//! Every operation on the host is defined on the inputs for which its own condition holds;
//! these functions decide the conditions.

use crate::error::Kind;
use crate::graph::TensorView;
use crate::host_ops::arith::{
    int_binary_fits, int_domain, int_result, int_result_at, int_value, is_int, joint_count,
    lemma_pow_grows, lemma_small_pow, magnitude, pair_places, BinOp, MAX_EXPONENT,
};
use crate::host_ops::gather::{
    dequantize_fits, gather_sound, indices_within, is_positive_beside, optional_tensor,
    zero_point_of,
};
use crate::host_ops::join::{axis_sum, axis_sums_fit, row_len, scatter_sound, views};
use crate::host_ops::lanes::lane_place;
use crate::host_ops::scan::{front_axis, lane_count, lane_sum, reduce_fits, RedOp};
use crate::host_ops::select::{ranges_within, Ranges};
use crate::host_ops::{elements, fault, ints_of, lemma_sound_len, HostTensor};
use crate::num::in_range;
use crate::shape::{
    broadcast, count_of, joins, joint_shape, lemma_count, product, source, suffix, Broadcast,
};
use vstd::arithmetic::power::pow;
use vstd::prelude::*;

verus! {

// --- arithmetic -------------------------------------------------------------------------

/// Whether `x` to the power `y` is a 64-bit integer.
fn power_fits(x: i64, y: u32) -> (r: bool)
    ensures
        r == in_range(pow(x as int, y as nat)),
{
    if x == 0 || x == 1 || x == -1 {
        proof {
            lemma_small_pow(x as int, y as nat);
        }
        return true;
    }
    let mut acc: i64 = 1;
    let mut i: u32 = 0;
    reveal(pow);
    while i < y
        invariant
            i <= y,
            x >= 2 || x <= -2,
            acc == pow(x as int, i as nat),
        decreases y - i,
    {
        proof {
            reveal(pow);
            let p = pow(x as int, i as nat);
            assert(pow(x as int, (i + 1) as nat) == x * p);
            assert(x * p == p * x) by (nonlinear_arith);
        }
        match acc.checked_mul(x) {
            Some(v) => {
                acc = v;
            },
            None => {
                proof {
                    let q = pow(x as int, (i + 1) as nat);
                    assert(!in_range(q));
                    if i + 1 < y {
                        lemma_pow_grows(x as int, (i + 2) as nat, y as nat);
                        assert(pow(x as int, (i + 2) as nat) == x * q);
                        assert(magnitude(x * q) >= 2 * magnitude(q)) by (nonlinear_arith)
                            requires
                                x >= 2 || x <= -2,
                        ;
                    }
                }
                return false;
            },
        }
        i += 1;
    }
    true
}

/// Whether the result on two integers, where there is one, is a 64-bit integer.
fn result_fits(op: BinOp, x: i64, y: i64) -> (r: bool)
    ensures
        r == (int_value(op, x as int, y as int) matches Some(v) ==> in_range(v)),
{
    match op {
        BinOp::Add => x.checked_add(y).is_some(),
        BinOp::Sub => x.checked_sub(y).is_some(),
        BinOp::Mul => x.checked_mul(y).is_some(),
        BinOp::Div => {
            proof {
                let (a, b) = (magnitude(x as int), magnitude(y as int));
                if y != 0 {
                    assert(0 <= a / b <= a) by (nonlinear_arith)
                        requires
                            a >= 0,
                            b >= 1,
                    ;
                    if b >= 2 {
                        assert(2 * (a / b) <= a) by (nonlinear_arith)
                            requires
                                a >= 0,
                                b >= 2,
                        ;
                    } else {
                        assert(a / 1 == a);
                    }
                }
            }
            !(x == i64::MIN && y == -1)
        },
        BinOp::Pow => if 0 <= y && y <= MAX_EXPONENT {
            power_fits(x, y as u32)
        } else {
            true
        },
        BinOp::Min => true,
        BinOp::Max => true,
    }
}

/// Whether integer arithmetic on the tensors stays within 64 bits up to the first error.
pub fn binary_ready(a: &HostTensor, b: &HostTensor, op: BinOp) -> (r: bool)
    ensures
        r == (int_domain(a.dtype) && int_domain(b.dtype) ==> int_binary_fits(a@, b@, op)),
{
    if !is_int(a.dtype) || !is_int(b.dtype) {
        return true;
    }
    let (av, bv): (Vec<i64>, Vec<i64>) = match (a.to_i64(), b.to_i64()) {
        (Ok(x), Ok(y)) => (x, y),
        _ => {
            return true;
        },
    };
    let bc: Broadcast = match broadcast(a.shape.as_slice(), b.shape.as_slice()) {
        Ok(bc) => bc,
        Err(_) => {
            return true;
        },
    };
    let ghost out = joint_shape(a.shape@, b.shape@);
    proof {
        lemma_sound_len(a@);
        lemma_sound_len(b@);
        lemma_count(a.shape@);
        lemma_count(b.shape@);
    }
    let places = pair_places(a.shape.as_slice(), b.shape.as_slice(), &bc);
    let n: usize = places.len();
    let mut i: usize = 0;
    while i < n
        invariant
            i <= n,
            n == places@.len(),
            n == product(out),
            out == joint_shape(a.shape@, b.shape@),
            joins(a.shape@, b.shape@),
            int_domain(a.dtype),
            int_domain(b.dtype),
            ints_of(a@) == Ok::<Seq<i64>, Kind>(av@),
            ints_of(b@) == Ok::<Seq<i64>, Kind>(bv@),
            av@.len() == product(a.shape@),
            bv@.len() == product(b.shape@),
            forall|j: int|
                0 <= j < n ==> (#[trigger] places@[j]).0 == source(a.shape@, out, j) && places@[j].1
                    == source(b.shape@, out, j) && places@[j].0 < product(a.shape@) && places@[j].1
                    < product(b.shape@),
            forall|j: int|
                0 <= j < i ==> (#[trigger] int_result_at(av@, bv@, a@, b@, op, j) matches Some(v)
                    && in_range(v)),
        decreases n - i,
    {
        let (ia, ib) = places[i];
        let (x, y): (i64, i64) = (av[ia], bv[ib]);
        assert(int_result_at(av@, bv@, a@, b@, op, i as int) == int_value(op, x as int, y as int));
        if !result_fits(op, x, y) {
            assert(!int_binary_fits(a@, b@, op));
            return false;
        }
        match int_result(op, x, y) {
            Some(_) => {},
            None => {
                proof {
                    assert(int_result_at(av@, bv@, a@, b@, op, i as int) is None);
                    assert forall|k: int|
                        0 <= k < joint_count(a@, b@) && (forall|j: int|
                            0 <= j < k ==> #[trigger] int_result_at(av@, bv@, a@, b@, op, j) is Some)
                            implies (#[trigger] int_result_at(av@, bv@, a@, b@, op, k) matches Some(v)
                        ==> in_range(v)) by {
                        if k > i {
                            assert(int_result_at(av@, bv@, a@, b@, op, i as int) is Some);
                        }
                    }
                }
                return true;
            },
        }
        i += 1;
    }
    true
}

/// Whether no sum along the axis leaves 64 bits.
pub fn reduce_ready(x: &HostTensor, axis: usize, op: RedOp) -> (r: bool)
    ensures
        r == reduce_fits(x@, axis as int, op),
{
    if (op != RedOp::Sum && op != RedOp::Mean) || axis >= x.shape.len() {
        return true;
    }
    let v: Vec<i64> = match x.to_i64() {
        Ok(v) => v,
        Err(_) => {
            return true;
        },
    };
    proof {
        lemma_sound_len(x@);
        lemma_count(x.shape@);
    }
    let n: usize = v.len();
    if n == 0 {
        return true;
    }
    proof {
        crate::shape::lemma_nonempty(x.shape@);
        crate::shape::lemma_whole(x.shape@);
    }
    let strides = crate::shape::strides_of(x.shape.as_slice());
    let inner: usize = strides[axis];
    assert(x.shape@[axis as int] > 0);
    let c64: i64 = x.shape[axis];
    let ghost ci = c64 as int;
    let ghost ii = inner as int;
    proof {
        crate::shape::lemma_suffix_bound(x.shape@, axis as int);
        assert(suffix(x.shape@, axis as int) == ci * ii);
        assert(ci <= ci * ii) by (nonlinear_arith)
            requires
                ci >= 1,
                ii >= 1,
        ;
    }
    let c: usize = c64 as usize;
    let lanes: usize = n / c;
    let mut r: usize = 0;
    while r < lanes
        invariant
            r <= lanes,
            n == v@.len(),
            n > 0,
            c == ci,
            inner == ii,
            ci >= 1,
            ii >= 1,
            lanes == n as int / ci,
            lanes == lane_count(n as int, ci),
            ci == x.shape@[axis as int],
            ii == suffix(x.shape@, axis + 1),
            ci * ii <= usize::MAX,
            n == crate::shape::product(x.shape@),
            axis < x.shape@.len(),
            crate::shape::positive(x.shape@),
            op == RedOp::Sum || op == RedOp::Mean,
            ints_of(x@) == Ok::<Seq<i64>, Kind>(v@),
            forall|q: int, k: int|
                0 <= q < r && 0 <= k <= ci ==> in_range(#[trigger] lane_sum(v@, ci, ii, q, k)),
        decreases lanes - r,
    {
        let mut sum: i64 = 0;
        let mut k: usize = 0;
        while k < c
            invariant
                k <= c,
                r < lanes,
                n == v@.len(),
                n > 0,
                c == ci,
                inner == ii,
                ci >= 1,
                ii >= 1,
                lanes == n as int / ci,
                lanes == lane_count(n as int, ci),
                ci == x.shape@[axis as int],
                ii == suffix(x.shape@, axis + 1),
                ci * ii <= usize::MAX,
                n == crate::shape::product(x.shape@),
                axis < x.shape@.len(),
                crate::shape::positive(x.shape@),
                op == RedOp::Sum || op == RedOp::Mean,
                ints_of(x@) == Ok::<Seq<i64>, Kind>(v@),
                sum == lane_sum(v@, ci, ii, r as int, k as int),
                forall|j: int|
                    0 <= j <= k ==> in_range(#[trigger] lane_sum(v@, ci, ii, r as int, j)),
                forall|q: int, k: int|
                    0 <= q < r && 0 <= k <= ci ==> in_range(#[trigger] lane_sum(v@, ci, ii, q, k)),
            decreases c - k,
        {
            proof {
                lemma_lane_inside(x.shape@, axis as int, n as int, r as int, k as int);
            }
            let o: usize = r / inner * (c * inner) + r % inner + k * inner;
            match sum.checked_add(v[o]) {
                Some(s) => {
                    sum = s;
                },
                None => {
                    assert(!in_range(lane_sum(v@, ci, ii, r as int, k + 1)));
                    return false;
                },
            }
            k += 1;
        }
        r += 1;
    }
    true
}

/// The elements of a lane lie within the tensor.
proof fn lemma_lane_inside(shape: Seq<i64>, axis: int, n: int, r: int, k: int)
    requires
        crate::shape::positive(shape),
        0 <= axis < shape.len(),
        n == product(shape),
        0 <= r < n / (shape[axis] as int),
        0 <= k < shape[axis],
    ensures
        0 <= r / suffix(shape, axis + 1),
        0 <= r / suffix(shape, axis + 1) * (shape[axis] * suffix(shape, axis + 1)),
        0 <= r % suffix(shape, axis + 1),
        0 <= k * suffix(shape, axis + 1),
        lane_place(shape[axis] as int, suffix(shape, axis + 1), r, k) < n,
{
    let c = shape[axis] as int;
    let i = suffix(shape, axis + 1);
    crate::shape::lemma_suffix_positive(shape, axis + 1);
    crate::shape::lemma_split_product(shape, axis);
    let outer = product(shape.take(axis));
    assert(n == outer * (c * i));
    let q = r / i;
    let m = r % i;
    vstd::arithmetic::div_mod::lemma_fundamental_div_mod(r, i);
    vstd::arithmetic::div_mod::lemma_fundamental_div_mod(n, c);
    assert(outer * (c * i) == c * (outer * i)) by (nonlinear_arith);
    vstd::arithmetic::div_mod::lemma_fundamental_div_mod_converse(n, c, outer * i, 0);
    assert(n / c == outer * i);
    assert(0 <= q < outer) by (nonlinear_arith)
        requires
            r == i * q + m,
            0 <= r < outer * i,
            0 <= m < i,
            i >= 1,
    ;
    let w = c * i;
    assert(0 <= q * w && q * w + w <= outer * w) by (nonlinear_arith)
        requires
            0 <= q < outer,
            w >= 0,
            w == c * i,
            c >= 1,
            i >= 1,
    ;
    assert(0 <= k * i && k * i + i <= c * i) by (nonlinear_arith)
        requires
            0 <= k < c,
            i >= 1,
    ;
}

/// Whether no difference to the zero point leaves 64 bits.
pub fn dequantize_ready(x: &HostTensor, zero: Option<&HostTensor>) -> (r: bool)
    ensures
        r == dequantize_fits(x@, optional_tensor(zero)),
{
    let z: i64 = match zero {
        None => 0,
        Some(t) => {
            match t.validate() {
                Ok(_) => {},
                Err(_) => {
                    return true;
                },
            }
            if t.dtype != x.dtype {
                return true;
            }
            match t.to_i64() {
                Ok(v) => if v.len() == 1 {
                    v[0]
                } else {
                    return true;
                },
                Err(_) => {
                    return true;
                },
            }
        },
    };
    match x.to_i64() {
        Ok(v) => {
            let n: usize = v.len();
            let mut i: usize = 0;
            while i < n
                invariant
                    i <= n,
                    n == v@.len(),
                    ints_of(x@) == Ok::<Seq<i64>, Kind>(v@),
                    zero_point_of(x@, optional_tensor(zero)) == Ok::<int, Kind>(z as int),
                    forall|k: int| 0 <= k < i ==> in_range(#[trigger] v@[k] - z),
                decreases n - i,
            {
                if v[i].checked_sub(z).is_none() {
                    proof {
                        let zero_at = zero_point_of(x@, optional_tensor(zero))->Ok_0;
                        let vals = ints_of(x@)->Ok_0;
                        assert(vals == v@ && zero_at == z as int);
                        assert(!in_range(vals[i as int] - zero_at));
                        assert(!dequantize_fits(x@, optional_tensor(zero)));
                    }
                    return false;
                }
                i += 1;
            }
            true
        },
        Err(_) => true,
    }
}

// --- shapes -----------------------------------------------------------------------------

/// Whether the number of dimensions is a 64-bit integer.
pub fn rank_ready(shape: &[i64]) -> (r: bool)
    ensures
        r == (shape@.len() <= i64::MAX),
{
    let n: usize = shape.len();
    n as u64 <= i64::MAX as u64
}

/// The condition of a tiling.
pub open spec fn tile_fits(x: TensorView, repeats: Seq<i64>) -> bool {
    fault(x) is None && repeats.len() == x.shape.len() && (forall|d: int|
        0 <= d < repeats.len() ==> #[trigger] repeats[d] >= 0) ==> forall|d: int|
        0 <= d < x.shape.len() ==> #[trigger] x.shape[d] * repeats[d] <= i64::MAX
}

/// Whether the dimensions of a tiling can be held.
pub fn tile_ready(x: &HostTensor, repeats: &[i64]) -> (r: bool)
    ensures
        r == tile_fits(x@, repeats@),
{
    let n: usize = x.shape.len();
    match x.validate() {
        Ok(_) => {},
        Err(_) => {
            return true;
        },
    }
    if repeats.len() != n {
        return true;
    }
    let mut d: usize = 0;
    while d < n
        invariant
            d <= n,
            n == repeats@.len(),
            forall|k: int| 0 <= k < d ==> #[trigger] repeats@[k] >= 0,
        decreases n - d,
    {
        if repeats[d] < 0 {
            assert(repeats@[d as int] < 0);
            return true;
        }
        d += 1;
    }
    let mut d: usize = 0;
    while d < n
        invariant
            d <= n,
            n == repeats@.len(),
            n == x.shape@.len(),
            fault(x@) is None,
            forall|k: int| 0 <= k < n ==> #[trigger] repeats@[k] >= 0,
            forall|k: int| 0 <= k < d ==> #[trigger] x.shape@[k] * repeats@[k] <= i64::MAX,
        decreases n - d,
    {
        let a: i64 = x.shape[d];
        let b: i64 = repeats[d];
        proof {
            lemma_sound_len(x@);
            lemma_count(x.shape@);
            assert(x.shape@[d as int] >= 0);
            assert(repeats@[d as int] >= 0);
            assert(a * b >= 0) by (nonlinear_arith)
                requires
                    a >= 0,
                    b >= 0,
            ;
        }
        if a.checked_mul(b).is_none() {
            proof {
                let v = x@.shape;
                assert(v[d as int] * repeats@[d as int] > i64::MAX);
            }
            return false;
        }
        d += 1;
    }
    true
}

/// The condition of a padding.
pub open spec fn pad_fits(x: TensorView, begins: Seq<i64>, ends: Seq<i64>) -> bool {
    begins.len() == x.shape.len() && ends.len() == x.shape.len() ==> forall|d: int|
        0 <= d < x.shape.len() ==> i64::MIN <= #[trigger] x.shape[d] + begins[d] <= i64::MAX
            && i64::MIN <= x.shape[d] + begins[d] + ends[d] <= i64::MAX
}

/// Whether the dimensions of a padding can be held.
pub fn pad_ready(x: &HostTensor, begins: &[i64], ends: &[i64]) -> (r: bool)
    ensures
        r == pad_fits(x@, begins@, ends@),
{
    let n: usize = x.shape.len();
    if begins.len() != n || ends.len() != n {
        return true;
    }
    let mut d: usize = 0;
    while d < n
        invariant
            d <= n,
            n == begins@.len(),
            n == ends@.len(),
            n == x.shape@.len(),
            forall|k: int|
                0 <= k < d ==> i64::MIN <= #[trigger] x.shape@[k] + begins@[k] <= i64::MAX
                    && i64::MIN <= x.shape@[k] + begins@[k] + ends@[k] <= i64::MAX,
        decreases n - d,
    {
        let fits: bool = match x.shape[d].checked_add(begins[d]) {
            Some(s) => s.checked_add(ends[d]).is_some(),
            None => false,
        };
        if !fits {
            proof {
                let v = x@.shape;
                assert(!(i64::MIN <= v[d as int] + begins@[d as int] <= i64::MAX && i64::MIN
                    <= v[d as int] + begins@[d as int] + ends@[d as int] <= i64::MAX));
            }
            return false;
        }
        d += 1;
    }
    true
}

/// The axis counted from the front, where it is one of the tensor's.
fn front_of(axis: i64, rank: usize) -> (r: Option<usize>)
    ensures
        match r {
            Some(a) => a == front_axis(axis as int, rank as int) && a < rank,
            None => !(0 <= front_axis(axis as int, rank as int) < rank),
        },
{
    let a: i128 = if axis < 0 {
        axis as i128 + rank as i128
    } else {
        axis as i128
    };
    if 0 <= a && a < rank as i128 {
        Some(a as usize)
    } else {
        None
    }
}

/// The condition of a gathering.
pub fn gather_ready(data: &HostTensor, indices: &HostTensor, axis: i64) -> (r: bool)
    ensures
        r == (data.shape@.len() <= i64::MAX && gather_sound(data@, indices@, axis as int)),
{
    if !rank_ready(data.shape.as_slice()) {
        return false;
    }
    match data.validate() {
        Ok(_) => {},
        Err(_) => {
            return true;
        },
    }
    let rank: usize = data.shape.len();
    let a: usize = match front_of(axis, rank) {
        Some(a) => a,
        None => {
            return true;
        },
    };
    let idx: Vec<i64> = match indices.to_i64() {
        Ok(v) => v,
        Err(_) => {
            return true;
        },
    };
    let m: usize = idx.len();
    if m == 0 {
        return true;
    }
    let beside: bool = is_positive_beside(data.shape.as_slice(), a);
    let dim: i64 = data.shape[a];
    proof {
        lemma_sound_len(data@);
        lemma_count(data.shape@);
        assert(data.shape@[a as int] >= 0);
    }
    if !beside {
        return true;
    }
    // the dimensions beside the axis are positive, so that their product can be formed
    let head = crate::host_ops::gather::dims_range(data.shape.as_slice(), 0, a);
    let tail = crate::host_ops::gather::dims_range(data.shape.as_slice(), a + 1, rank);
    proof {
        assert(head@ =~= data.shape@.take(a as int));
        assert(tail@ =~= data.shape@.subrange(a + 1, rank as int));
        lemma_tail_product(data.shape@, a + 1);
    }
    beside_count(head.as_slice(), tail.as_slice(), m)
}

proof fn lemma_tail_product(shape: Seq<i64>, d: int)
    requires
        0 <= d <= shape.len(),
    ensures
        suffix(shape, d) == product(shape.subrange(d, shape.len() as int)),
{
    let tail = shape.subrange(d, shape.len() as int);
    crate::shape::lemma_whole(tail);
    lemma_tail_suffix(shape, d, d);
}

proof fn lemma_tail_suffix(shape: Seq<i64>, from: int, d: int)
    requires
        0 <= from <= d <= shape.len(),
    ensures
        suffix(shape, d) == suffix(shape.subrange(from, shape.len() as int), d - from),
    decreases shape.len() - d,
{
    if d < shape.len() {
        lemma_tail_suffix(shape, from, d + 1);
    }
}

/// Whether `m` slices between these dimensions can be counted.
fn beside_count(head: &[i64], tail: &[i64], m: usize) -> (r: bool)
    requires
        crate::shape::positive(head@),
        crate::shape::positive(tail@),
        m > 0,
    ensures
        r == (product(head@) * (product(tail@) * m) <= usize::MAX),
{
    proof {
        lemma_product_positive(head@);
        lemma_product_positive(tail@);
    }
    let ghost (h, t) = (product(head@), product(tail@));
    let inner: usize = match crate::shape::element_count(tail) {
        Ok(v) => v,
        Err(_) => {
            proof {
                lemma_uncounted(tail@);
                assert(h * (t * m) > usize::MAX) by (nonlinear_arith)
                    requires
                        h >= 1,
                        t > usize::MAX,
                        m >= 1,
                ;
            }
            return false;
        },
    };
    proof {
        lemma_count(tail@);
    }
    let outer: usize = match crate::shape::element_count(head) {
        Ok(v) => v,
        Err(_) => {
            proof {
                lemma_uncounted(head@);
                assert(h * (t * m) > usize::MAX) by (nonlinear_arith)
                    requires
                        h > usize::MAX,
                        t >= 1,
                        m >= 1,
                ;
            }
            return false;
        },
    };
    proof {
        lemma_count(head@);
    }
    match inner.checked_mul(m) {
        None => {
            proof {
                let w = t * m;
                assert(h * w > usize::MAX) by (nonlinear_arith)
                    requires
                        h >= 1,
                        w > usize::MAX,
                ;
            }
            false
        },
        Some(w) => outer.checked_mul(w).is_some(),
    }
}

proof fn lemma_product_positive(shape: Seq<i64>)
    requires
        crate::shape::positive(shape),
    ensures
        product(shape) >= 1,
{
    crate::shape::lemma_whole(shape);
    crate::shape::lemma_suffix_positive(shape, 0);
}

/// Positive dimensions that cannot be counted have too large a product.
proof fn lemma_uncounted(shape: Seq<i64>)
    requires
        crate::shape::positive(shape),
        count_of(shape) is None,
    ensures
        product(shape) > usize::MAX,
    decreases shape.len(),
{
    if shape.len() > 0 {
        let rest = shape.drop_last();
        assert(crate::shape::positive(rest)) by {
            assert forall|k: int| 0 <= k < rest.len() implies #[trigger] rest[k] > 0 by {
                assert(shape[k] > 0);
            }
        }
        assert(shape[shape.len() - 1] > 0);
        let d = shape.last() as int;
        if count_of(rest) is None {
            lemma_uncounted(rest);
            let p = product(rest);
            assert(p * d > usize::MAX) by (nonlinear_arith)
                requires
                    p > usize::MAX,
                    d >= 1,
            ;
        } else {
            lemma_count(rest);
        }
    }
}

/// The condition of a gathering element by element.
pub open spec fn elements_fit(data: TensorView, indices: TensorView, axis: int) -> bool {
    data.shape.len() <= i64::MAX && (indices.shape.len() == data.shape.len() && elements(indices) > 0
        ==> indices_within(data.shape, indices.shape, front_axis(axis, data.shape.len() as int)))
}

/// Whether the indices are no larger than the data beside the axis.
pub fn gather_elements_ready(data: &HostTensor, indices: &HostTensor, axis: i64) -> (r: bool)
    ensures
        r == elements_fit(data@, indices@, axis as int),
{
    if !rank_ready(data.shape.as_slice()) {
        return false;
    }
    let rank: usize = data.shape.len();
    if indices.shape.len() != rank || indices.elem_count() == 0 {
        return true;
    }
    let a: i128 = if axis < 0 {
        axis as i128 + rank as i128
    } else {
        axis as i128
    };
    let ghost (s, o) = (data@.shape, indices@.shape);
    let mut d: usize = 0;
    while d < rank
        invariant
            d <= rank,
            rank == data.shape@.len(),
            rank == indices.shape@.len(),
            s == data@.shape,
            o == indices@.shape,
            rank <= i64::MAX,
            elements(indices@) > 0,
            a == front_axis(axis as int, rank as int),
            forall|k: int| 0 <= k < d && k != a ==> #[trigger] o[k] <= s[k],
        decreases rank - d,
    {
        if d as i128 != a && indices.shape[d] > data.shape[d] {
            assert(o[d as int] > s[d as int]);
            assert(!indices_within(s, o, front_axis(axis as int, rank as int)));
            return false;
        }
        d += 1;
    }
    true
}

/// The condition of a choice of the first along an axis.
pub open spec fn top_fits(x: TensorView, k: int, axis: int) -> bool {
    let a = front_axis(axis, x.shape.len() as int);
    x.shape.len() <= i64::MAX && (0 <= a < x.shape.len() && fault(x) is None ==> k > 0
        || x.shape[a] != 0)
}

/// Whether something is asked for, or there is something to choose from.
pub fn top_k_ready(x: &HostTensor, k: usize, axis: i64) -> (r: bool)
    ensures
        r == top_fits(x@, k as int, axis as int),
{
    if !rank_ready(x.shape.as_slice()) {
        return false;
    }
    match x.validate() {
        Ok(_) => {},
        Err(_) => {
            return true;
        },
    }
    match front_of(axis, x.shape.len()) {
        Some(a) => k > 0 || x.shape[a] != 0,
        None => true,
    }
}

/// The condition of a joining.
pub open spec fn concat_fits(ts: Seq<TensorView>, axis: int) -> bool {
    ts.len() > 0 ==> ts[0].shape.len() <= i64::MAX && (forall|i: int|
        0 <= i < ts.len() ==> (#[trigger] ts[i]).shape.len() > front_axis(
            axis,
            ts[0].shape.len() as int,
        ) && ts[i].shape[front_axis(axis, ts[0].shape.len() as int)] >= 0) && 0 <= front_axis(
        axis,
        ts[0].shape.len() as int,
    ) && axis_sum(ts, front_axis(axis, ts[0].shape.len() as int)) <= i64::MAX
}

proof fn lemma_axis_sums(ts: Seq<TensorView>, axis: int, i: int)
    requires
        0 <= i <= ts.len(),
        forall|k: int| 0 <= k < ts.len() ==> (#[trigger] ts[k]).shape[axis] >= 0,
    ensures
        axis_sum(ts.take(i), axis) <= axis_sum(ts, axis),
    decreases ts.len() - i,
{
    if i == ts.len() {
        assert(ts.take(i) =~= ts);
    } else {
        lemma_axis_sums(ts, axis, i + 1);
        assert(ts.take(i + 1).drop_last() =~= ts.take(i));
        assert(ts.take(i + 1).last() == ts[i]);
    }
}

/// Whether the tensors have the axis, and their sizes along it add up to something that can be
/// held: then every sum on the way can be held too.
pub fn concat_ready(inputs: &Vec<HostTensor>, axis: i64) -> (r: bool)
    ensures
        r == concat_fits(views(inputs@), axis as int),
        r && inputs@.len() > 0 ==> axis_sums_fit(
            views(inputs@),
            front_axis(axis as int, inputs@[0].shape@.len() as int),
        ),
{
    let n: usize = inputs.len();
    if n == 0 {
        return true;
    }
    let ghost ts = views(inputs@);
    assert(ts[0] == inputs@[0]@);
    if !rank_ready(inputs[0].shape.as_slice()) {
        return false;
    }
    let a: usize = match front_of(axis, inputs[0].shape.len()) {
        Some(a) => a,
        None => {
            proof {
                let b = front_axis(axis as int, ts[0].shape.len() as int);
                if b >= 0 {
                    assert(!(ts[0].shape.len() > b));
                }
            }
            return false;
        },
    };
    let mut sum: i64 = 0;
    let mut i: usize = 0;
    assert(ts.take(0) =~= Seq::empty());
    while i < n
        invariant
            i <= n,
            n == inputs@.len(),
            ts == views(inputs@),
            ts.len() == n,
            n > 0,
            a == front_axis(axis as int, ts[0].shape.len() as int),
            ts[0].shape.len() <= i64::MAX,
            sum == axis_sum(ts.take(i as int), a as int),
            forall|k: int|
                0 <= k < i ==> (#[trigger] ts[k]).shape.len() > a && ts[k].shape[a as int] >= 0,
        decreases n - i,
    {
        assert(ts[i as int] == inputs@[i as int]@);
        if inputs[i].shape.len() <= a {
            return false;
        }
        if inputs[i].shape[a] < 0 {
            assert(ts[i as int].shape[a as int] < 0);
            return false;
        }
        proof {
            assert(ts.take(i + 1).drop_last() =~= ts.take(i as int));
            assert(ts.take(i + 1).last() == ts[i as int]);
        }
        match sum.checked_add(inputs[i].shape[a]) {
            Some(s) => {
                sum = s;
            },
            None => {
                proof {
                    if concat_fits(ts, axis as int) {
                        lemma_axis_sums(ts, a as int, i + 1);
                    }
                }
                return false;
            },
        }
        i += 1;
    }
    proof {
        assert(ts.take(n as int) =~= ts);
        assert forall|i: int| 0 <= i <= ts.len() implies #[trigger] axis_sum(
            ts.take(i),
            a as int,
        ) <= i64::MAX by {
            lemma_axis_sums(ts, a as int, i);
        }
    }
    true
}

/// Whether the ranges stay within the tensor, where there is something to take.
pub open spec fn slice_fits(data: TensorView, r: Ranges) -> bool {
    fault(data) is None && r.out.len() == data.shape.len() && r.start.len() == data.shape.len()
        && r.step.len() == data.shape.len() && (count_of(r.out) matches Some(n) && n > 0)
        ==> ranges_within(data.shape, r)
}

/// Whether the ranges stay within the tensor.
pub fn slice_ready(data: &HostTensor, out: &[i64], start: &[i64], step: &[i64]) -> (r: bool)
    ensures
        r == slice_fits(data@, (Ranges { out: out@, start: start@, step: step@ })),
{
    match data.validate() {
        Ok(_) => {},
        Err(_) => {
            return true;
        },
    }
    let rank: usize = data.shape.len();
    if out.len() != rank || start.len() != rank || step.len() != rank {
        return true;
    }
    match crate::shape::element_count(out) {
        Ok(n) => {
            if n == 0 {
                return true;
            }
        },
        Err(_) => {
            return true;
        },
    }
    let ghost all = Ranges { out: out@, start: start@, step: step@ };
    proof {
        lemma_count(out@);
        crate::shape::lemma_nonempty(out@);
    }
    let mut d: usize = 0;
    while d < rank
        invariant
            d <= rank,
            rank == data.shape@.len(),
            rank == out@.len(),
            rank == start@.len(),
            rank == step@.len(),
            fault(data@) is None,
            count_of(out@) matches Some(n) && n > 0,
            crate::shape::positive(out@),
            all == (Ranges { out: out@, start: start@, step: step@ }),
            forall|k: int, c: int|
                0 <= k < d && 0 <= c < out@[k] ==> 0 <= start@[k] + #[trigger] (c * step@[k])
                    < data.shape@[k],
        decreases rank - d,
    {
        let (s, t, dim): (i64, i64, i64) = (start[d], step[d], data.shape[d]);
        assert(out@[d as int] > 0);
        let last: i64 = out[d] - 1;
        proof {
            let (a, b) = (last as int, t as int);
            assert(-0x4000_0000_0000_0000_0000_0000_0000_0000 <= a * b
                <= 0x4000_0000_0000_0000_0000_0000_0000_0000) by (nonlinear_arith)
                requires
                    0 <= a <= 0x8000_0000_0000_0000,
                    -0x8000_0000_0000_0000 <= b <= 0x8000_0000_0000_0000,
            ;
        }
        let end: i128 = (last as i128) * (t as i128) + s as i128;
        if s < 0 || s >= dim || end < 0 || end >= dim as i128 {
            proof {
                assert(0 * (t as int) == 0);
                assert(!(0 <= all.start[d as int] + (0 * all.step[d as int]) < data@.shape[d as int])
                    || !(0 <= all.start[d as int] + ((last as int) * all.step[d as int])
                    < data@.shape[d as int]));
                assert(!ranges_within(data@.shape, all));
            }
            return false;
        }
        proof {
            assert forall|c: int| 0 <= c < out@[d as int] implies 0 <= start@[d as int]
                + #[trigger] (c * step@[d as int]) < data.shape@[d as int] by {
                let (a, b) = (last as int, t as int);
                if b >= 0 {
                    assert(0 <= c * b <= a * b) by (nonlinear_arith)
                        requires
                            0 <= c <= a,
                            b >= 0,
                    ;
                } else {
                    assert(a * b <= c * b <= 0) by (nonlinear_arith)
                        requires
                            0 <= c <= a,
                            b < 0,
                    ;
                }
            }
        }
        d += 1;
    }
    true
}

/// The number of elements of the trailing dimensions, where it can be counted.
fn tail_count(shape: &[i64], k: usize) -> (r: Option<usize>)
    requires
        k <= shape@.len(),
        forall|d: int| 0 <= d < shape@.len() ==> 0 <= #[trigger] shape@[d],
    ensures
        match r {
            Some(n) => n == suffix(shape@, k as int),
            None => suffix(shape@, k as int) > usize::MAX,
        },
{
    let n: usize = shape.len();
    let tail = crate::host_ops::gather::dims_range(shape, k, n);
    proof {
        assert(tail@ =~= shape@.subrange(k as int, n as int));
        lemma_tail_product(shape@, k as int);
    }
    let mut d: usize = k;
    while d < n
        invariant
            k <= d <= n,
            n == shape@.len(),
            forall|j: int| 0 <= j < n ==> 0 <= #[trigger] shape@[j],
            forall|j: int| k <= j < d ==> #[trigger] shape@[j] > 0,
        decreases n - d,
    {
        if shape[d] == 0 {
            proof {
                lemma_zero_suffix(shape@, k as int, d as int);
            }
            return Some(0);
        }
        assert(0 <= shape@[d as int]);
        d += 1;
    }
    assert(crate::shape::positive(tail@));
    match crate::shape::element_count(tail.as_slice()) {
        Ok(c) => {
            proof {
                lemma_count(tail@);
            }
            Some(c)
        },
        Err(_) => {
            proof {
                lemma_uncounted(tail@);
            }
            None
        },
    }
}

proof fn lemma_zero_suffix(shape: Seq<i64>, k: int, d: int)
    requires
        0 <= k <= d < shape.len(),
        shape[d] == 0,
    ensures
        suffix(shape, k) == 0,
    decreases d - k,
{
    if k < d {
        lemma_zero_suffix(shape, k + 1, d);
        assert(shape[k] * 0 == 0);
    } else {
        assert(0 * suffix(shape, k + 1) == 0);
    }
}

/// The condition of a scattering.
pub fn scatter_ready(data: &HostTensor, indices: &HostTensor) -> (r: bool)
    ensures
        r == scatter_sound(data@, indices@),
{
    match data.validate() {
        Ok(_) => {},
        Err(_) => {
            return true;
        },
    }
    let m: usize = indices.shape.len();
    if m == 0 {
        return true;
    }
    let last: i64 = indices.shape[m - 1];
    if last < 0 || last as u64 > data.shape.len() as u64 {
        return true;
    }
    let k: usize = last as usize;
    if indices.to_i64().is_err() {
        return true;
    }
    proof {
        lemma_sound_len(data@);
        lemma_count(data.shape@);
    }
    assert(k == row_len(indices@));
    tail_count(data.shape.as_slice(), k).is_some()
}

/// Whether the parameters of a slice can be counted.
pub open spec fn slice_params_fit(shape: Seq<i64>, starts: Seq<i64>) -> bool {
    shape.len() <= i64::MAX && starts.len() <= i64::MAX
}

/// Whether the parameters of a slice can be counted.
pub fn slice_params_ready(shape: &[i64], starts: &[i64]) -> (r: bool)
    ensures
        r == slice_params_fit(shape@, starts@),
{
    shape.len() as u64 <= i64::MAX as u64 && starts.len() as u64 <= i64::MAX as u64
}

} // verus!
