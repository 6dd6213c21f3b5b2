//! Element by element arithmetic, comparison and logic, with broadcasting.

use crate::error::{invalid_tensor, Kind, Result};
use crate::floats::{eq_spec, f32_eq, f32_floor, f32_lt, floor_spec, is_zero, lt_spec};
use crate::graph::TensorView;
use crate::host_ops::{
    copy_dims, fault, float_tensor, floats_of, gives, int_tensor, ints_of, lemma_sound_len,
    returned, returned_of, HostTensor, Outcome, BOOL, INT32, INT64, INT8, UINT8,
};
use crate::num::in_range;
use crate::shape::{
    broadcast, coord, count_of, fits_into, joins, joint_shape, joint_stride, lemma_coord_bound,
    lemma_count, lemma_joint_fits, lemma_peel, lemma_source_bound, lemma_suffix_positive,
    lemma_unit_suffix, lemma_weighted_grows, lemma_whole, positive, product, source, suffix,
    unit_suffix, weighted, Broadcast,
};
use vstd::arithmetic::power::pow;
use vstd::prelude::*;

verus! {

/// Arithmetic on two operands.
#[derive(Debug, Clone, Copy, PartialEq, Eq, Structural)]
pub enum BinOp {
    Add,
    Sub,
    Mul,
    Div,
    Pow,
    Min,
    Max,
}

/// Comparison or logic on two operands.
#[derive(Debug, Clone, Copy, PartialEq, Eq, Structural)]
pub enum CmpOp {
    Equal,
    Less,
    Greater,
    LessOrEqual,
    And,
}

/// Whether numbers of this type are computed with as integers.
pub open spec fn int_domain(dtype: i32) -> bool {
    dtype == INT64 || dtype == INT32 || dtype == BOOL || dtype == UINT8 || dtype == INT8
}

pub(crate) fn is_int(dtype: i32) -> (r: bool)
    ensures
        r == int_domain(dtype),
{
    dtype == INT64 || dtype == INT32 || dtype == BOOL || dtype == UINT8 || dtype == INT8
}

// --- integers ---------------------------------------------------------------------------

pub open spec fn magnitude(x: int) -> int {
    if x < 0 {
        -x
    } else {
        x
    }
}

/// The quotient, rounded towards zero.
pub open spec fn quotient(x: int, y: int) -> int {
    let q = magnitude(x) / magnitude(y);
    if (x < 0) == (y < 0) {
        q
    } else {
        -q
    }
}

/// The remainder that goes with it: it has the sign of the dividend.
pub open spec fn remainder(x: int, y: int) -> int {
    let r = magnitude(x) % magnitude(y);
    if x < 0 {
        -r
    } else {
        r
    }
}

/// The remainder that has the sign of the divisor.
pub open spec fn floored_remainder(x: int, y: int) -> int {
    let r = remainder(x, y);
    if r != 0 && (r < 0) != (y < 0) {
        r + y
    } else {
        r
    }
}

/// Dividend, quotient and remainder belong together, and the remainder is the smaller one.
pub proof fn law_quotient_remainder(x: int, y: int)
    requires
        y != 0,
    ensures
        x == quotient(x, y) * y + remainder(x, y),
        magnitude(remainder(x, y)) < magnitude(y),
        remainder(x, y) == 0 || (remainder(x, y) < 0) == (x < 0),
{
    let a = magnitude(x);
    let b = magnitude(y);
    vstd::arithmetic::div_mod::lemma_fundamental_div_mod(a, b);
    let q = a / b;
    let r = a % b;
    assert(0 <= r < b);
    assert(b * q == q * b) by (nonlinear_arith);
    assert((-q) * y == -(q * y)) by (nonlinear_arith);
    assert(q * (-y) == -(q * y)) by (nonlinear_arith);
}

/// The other remainder is as small, and takes the sign of the divisor.
pub proof fn law_floored_remainder(x: int, y: int)
    requires
        y != 0,
    ensures
        magnitude(floored_remainder(x, y)) < magnitude(y),
        floored_remainder(x, y) == 0 || (floored_remainder(x, y) < 0) == (y < 0),
        exists|k: int| x == #[trigger] (k * y) + floored_remainder(x, y),
{
    law_quotient_remainder(x, y);
    let q = quotient(x, y);
    let f = floored_remainder(x, y);
    if f == remainder(x, y) {
        assert(x == q * y + f);
    } else {
        assert((q - 1) * y == q * y - y) by (nonlinear_arith);
        assert(x == (q - 1) * y + f);
    }
}

fn abs64(x: i64) -> (r: u64)
    ensures
        r == magnitude(x as int),
{
    if x < 0 {
        (-(x + 1)) as u64 + 1
    } else {
        x as u64
    }
}

fn negated(m: u64) -> (r: i64)
    requires
        m <= 0x8000_0000_0000_0000,
    ensures
        r == -(m as int),
{
    if m == 0 {
        0
    } else {
        -((m - 1) as i64) - 1
    }
}

/// `x / y`, rounded towards zero.
pub fn divide(x: i64, y: i64) -> (r: i64)
    requires
        y != 0,
        !(x == i64::MIN && y == -1),
    ensures
        r == quotient(x as int, y as int),
{
    let a: u64 = abs64(x);
    let b: u64 = abs64(y);
    let q: u64 = a / b;
    proof {
        let ai = a as int;
        let bi = b as int;
        assert(ai / bi <= ai) by (nonlinear_arith)
            requires
                ai >= 0,
                bi >= 1,
        ;
        if b >= 2 {
            assert(2 * (ai / bi) <= ai) by (nonlinear_arith)
                requires
                    ai >= 0,
                    bi >= 2,
            ;
        }
    }
    if (x < 0) == (y < 0) {
        q as i64
    } else {
        negated(q)
    }
}

/// `x % y`, with the sign of the dividend.
pub fn remainder_of(x: i64, y: i64) -> (r: i64)
    requires
        y != 0,
    ensures
        r == remainder(x as int, y as int),
{
    let r: u64 = abs64(x) % abs64(y);
    if x < 0 {
        negated(r)
    } else {
        r as i64
    }
}

/// The largest exponent of an integer power.
pub const MAX_EXPONENT: i64 = 4_294_967_295;

/// The result on integers; nothing where it is an error.
pub open spec fn int_value(op: BinOp, x: int, y: int) -> Option<int> {
    match op {
        BinOp::Add => Some(x + y),
        BinOp::Sub => Some(x - y),
        BinOp::Mul => Some(x * y),
        BinOp::Div => if y == 0 {
            None
        } else {
            Some(quotient(x, y))
        },
        BinOp::Pow => if 0 <= y <= MAX_EXPONENT {
            Some(pow(x, y as nat))
        } else {
            None
        },
        BinOp::Min => Some(
            if x <= y {
                x
            } else {
                y
            },
        ),
        BinOp::Max => Some(
            if x >= y {
                x
            } else {
                y
            },
        ),
    }
}

pub proof fn lemma_pow_grows(x: int, a: nat, b: nat)
    requires
        a <= b,
        x >= 2 || x <= -2,
    ensures
        1 <= magnitude(pow(x, a)) <= magnitude(pow(x, b)),
    decreases b,
{
    reveal(pow);
    if a < b {
        lemma_pow_grows(x, a, (b - 1) as nat);
        let p = pow(x, (b - 1) as nat);
        assert(pow(x, b) == x * p);
        assert(magnitude(x * p) >= magnitude(p)) by (nonlinear_arith)
            requires
                x >= 2 || x <= -2,
        ;
    } else if b > 0 {
        lemma_pow_grows(x, (b - 1) as nat, (b - 1) as nat);
        let p = pow(x, (b - 1) as nat);
        assert(pow(x, b) == x * p);
        assert(magnitude(x * p) >= magnitude(p)) by (nonlinear_arith)
            requires
                x >= 2 || x <= -2,
        ;
    }
}

pub proof fn lemma_small_pow(x: int, n: nat)
    requires
        -1 <= x <= 1,
    ensures
        n > 0 && x == 0 ==> pow(x, n) == 0,
        x == 1 ==> pow(x, n) == 1,
        x == -1 ==> pow(x, n) == if n % 2 == 0 {
            1int
        } else {
            -1
        },
        n == 0 ==> pow(x, n) == 1,
    decreases n,
{
    reveal(pow);
    if n > 0 {
        lemma_small_pow(x, (n - 1) as nat);
        assert(pow(x, n) == x * pow(x, (n - 1) as nat));
    }
}

/// `x` to the power `y`.
pub fn power(x: i64, y: u32) -> (r: i64)
    requires
        in_range(pow(x as int, y as nat)),
    ensures
        r == pow(x as int, y as nat),
{
    if x == 0 || x == 1 || x == -1 {
        proof {
            lemma_small_pow(x as int, y as nat);
        }
        if y == 0 || x == 1 {
            1
        } else if x == 0 {
            0
        } else if y % 2 == 0 {
            1
        } else {
            -1
        }
    } else {
        let mut acc: i64 = 1;
        let mut i: u32 = 0;
        reveal(pow);
        while i < y
            invariant
                i <= y,
                x >= 2 || x <= -2,
                in_range(pow(x as int, y as nat)),
                acc == pow(x as int, i as nat),
            decreases y - i,
        {
            proof {
                reveal(pow);
                let p = pow(x as int, i as nat);
                assert(pow(x as int, (i + 1) as nat) == x * p);
                assert(x * p == p * x) by (nonlinear_arith);
                lemma_pow_grows(x as int, (i + 1) as nat, y as nat);
                if i + 1 < y {
                    lemma_pow_grows(x as int, (i + 2) as nat, y as nat);
                    let q = x * p;
                    assert(pow(x as int, (i + 2) as nat) == x * q);
                    assert(magnitude(x * q) >= 2 * magnitude(q)) by (nonlinear_arith)
                        requires
                            x >= 2 || x <= -2,
                    ;
                }
            }
            acc = acc * x;
            i += 1;
        }
        acc
    }
}

pub(crate) fn int_result(op: BinOp, x: i64, y: i64) -> (r: Option<i64>)
    requires
        int_value(op, x as int, y as int) matches Some(v) ==> in_range(v),
    ensures
        match r {
            Some(v) => int_value(op, x as int, y as int) == Some(v as int),
            None => int_value(op, x as int, y as int) is None,
        },
{
    match op {
        BinOp::Add => Some(x + y),
        BinOp::Sub => Some(x - y),
        BinOp::Mul => Some(x * y),
        BinOp::Div => if y == 0 {
            None
        } else {
            proof {
                if x == i64::MIN && y == -1 {
                    assert(magnitude(x as int) / 1 == magnitude(x as int));
                }
            }
            Some(divide(x, y))
        },
        BinOp::Pow => if 0 <= y && y <= MAX_EXPONENT {
            Some(power(x, y as u32))
        } else {
            None
        },
        BinOp::Min => Some(
            if x <= y {
                x
            } else {
                y
            },
        ),
        BinOp::Max => Some(
            if x >= y {
                x
            } else {
                y
            },
        ),
    }
}

// --- broadcasting -----------------------------------------------------------------------

/// The number of elements of the broadcast result.
pub open spec fn joint_count(a: TensorView, b: TensorView) -> int {
    product(joint_shape(a.shape, b.shape))
}

/// The operand's value that goes into element `i` of the result.
pub open spec fn joint_at<T>(v: Seq<T>, shape: Seq<i64>, out: Seq<i64>, i: int) -> T {
    v[source(shape, out, i)]
}

proof fn lemma_joint_count(a: Seq<i64>, b: Seq<i64>)
    requires
        joins(a, b),
    ensures
        0 <= product(joint_shape(a, b)) <= u32::MAX,
        product(joint_shape(a, b)) > 0 ==> positive(joint_shape(a, b)),
{
    let out = joint_shape(a, b);
    lemma_joint_fits(a, b);
    lemma_whole(out);
    lemma_unit_bound(out, 0);
}

proof fn lemma_unit_bound(s: Seq<i64>, d: int)
    requires
        0 <= d <= s.len(),
        forall|k: int| 0 <= k < s.len() ==> #[trigger] s[k] >= 0,
    ensures
        0 <= suffix(s, d) <= unit_suffix(s, d),
        suffix(s, d) > 0 ==> forall|k: int| d <= k < s.len() ==> #[trigger] s[k] > 0,
    decreases s.len() - d,
{
    if d < s.len() {
        lemma_unit_bound(s, d + 1);
        let a = s[d] as int;
        let u = if a > 1 {
            a
        } else {
            1
        };
        let b = suffix(s, d + 1);
        let c = unit_suffix(s, d + 1);
        assert(0 <= a * b && a * b <= u * c && (a * b > 0 ==> a > 0 && b > 0)) by (nonlinear_arith)
            requires
                0 <= a <= u,
                0 <= b <= c,
        ;
    }
}

/// An operand with elements has no empty dimension, and its elements serve the result.
proof fn lemma_operand(shape: Seq<i64>, out: Seq<i64>, i: int)
    requires
        fits_into(shape, out),
        positive(out),
        forall|k: int| 0 <= k < shape.len() ==> 0 <= #[trigger] shape[k],
        0 <= i,
    ensures
        positive(shape),
        0 <= source(shape, out, i) < product(shape),
{
    assert forall|k: int| 0 <= k < shape.len() implies #[trigger] shape[k] > 0 by {
        assert(out[k + (out.len() - shape.len())] > 0);
    }
    lemma_source_bound(shape, out, i, out.len() as int);
    lemma_whole(shape);
}

/// The place in an operand of the element that goes into element `i` of the result.
fn bc_offset(
    out_strides: &[u32],
    strides: &[u32],
    i: usize,
    Ghost(shape): Ghost<Seq<i64>>,
    Ghost(out): Ghost<Seq<i64>>,
) -> (r: usize)
    requires
        positive(out),
        fits_into(shape, out),
        forall|k: int| 0 <= k < shape.len() ==> 0 <= #[trigger] shape[k],
        product(shape) <= usize::MAX,
        0 <= i < product(out),
        out_strides@.len() == out.len(),
        strides@.len() == out.len(),
        forall|k: int| 0 <= k < out.len() ==> #[trigger] out_strides@[k] == unit_suffix(out, k + 1),
        forall|k: int|
            0 <= k < out.len() ==> #[trigger] strides@[k] == joint_stride(
                shape,
                out.len() as int,
                k,
            ),
    ensures
        r == source(shape, out, i as int),
        r < product(shape),
{
    let n: usize = out_strides.len();
    let ghost f = |k: int| coord(out, i as int, k);
    let ghost w = |k: int| joint_stride(shape, out.len() as int, k);
    let mut rem: usize = i;
    let mut off: usize = 0;
    let mut k: usize = 0;
    proof {
        lemma_operand(shape, out, i as int);
        lemma_whole(out);
        vstd::arithmetic::div_mod::lemma_small_mod(i as nat, suffix(out, 0) as nat);
        assert forall|j: int| 0 <= j < out.len() implies 0 <= #[trigger] f(j) by {
            lemma_coord_bound(out, i as int, j);
        }
        assert forall|j: int| 0 <= j < out.len() implies 0 <= #[trigger] w(j) by {
            assert(strides@[j] == w(j));
        }
    }
    while k < n
        invariant
            n == out.len(),
            k <= n,
            out_strides@.len() == n,
            strides@.len() == n,
            positive(out),
            f == (|k: int| coord(out, i as int, k)),
            w == (|k: int| joint_stride(shape, out.len() as int, k)),
            forall|j: int| 0 <= j < out.len() ==> 0 <= #[trigger] f(j),
            forall|j: int| 0 <= j < out.len() ==> 0 <= #[trigger] w(j),
            forall|j: int|
                0 <= j < out.len() ==> #[trigger] out_strides@[j] == unit_suffix(out, j + 1),
            forall|j: int|
                0 <= j < out.len() ==> #[trigger] strides@[j] == joint_stride(
                    shape,
                    out.len() as int,
                    j,
                ),
            rem == i as int % suffix(out, k as int),
            off == weighted(f, w, k as int),
            weighted(f, w, n as int) < product(shape),
            product(shape) <= usize::MAX,
        decreases n - k,
    {
        let os: usize = out_strides[k] as usize;
        proof {
            lemma_unit_suffix(out, k + 1);
            lemma_peel(out, i as int, k as int);
            lemma_suffix_positive(out, k + 1);
            lemma_weighted_grows(f, w, k + 1, n as int);
            lemma_weighted_grows(f, w, k as int, n as int);
            assert(weighted(f, w, k + 1) == weighted(f, w, k as int) + f(k as int) * w(k as int));
        }
        let c: usize = rem / os;
        assert(c == f(k as int));
        assert(strides@[k as int] == w(k as int));
        off = off + c * (strides[k] as usize);
        rem = rem % os;
        k += 1;
    }
    off
}

// --- arithmetic -------------------------------------------------------------------------

/// The result of integer arithmetic on element `i`; nothing where it is an error.
pub open spec fn int_result_at(
    av: Seq<i64>,
    bv: Seq<i64>,
    a: TensorView,
    b: TensorView,
    op: BinOp,
    i: int,
) -> Option<int> {
    let out = joint_shape(a.shape, b.shape);
    int_value(
        op,
        joint_at(av, a.shape, out, i) as int,
        joint_at(bv, b.shape, out, i) as int,
    )
}

/// Integer arithmetic on two tensors.
pub open spec fn int_binary_of(a: TensorView, b: TensorView, op: BinOp) -> Outcome<TensorView> {
    let n = joint_count(a, b);
    if !joins(a.shape, b.shape) {
        Err(Kind::Shape)
    } else {
        match (ints_of(a), ints_of(b)) {
            (Err(k), _) => Err(k),
            (_, Err(k)) => Err(k),
            (Ok(av), Ok(bv)) => if exists|i: int|
                0 <= i < n && #[trigger] int_result_at(av, bv, a, b, op, i) is None {
                Err(Kind::Tensor)
            } else {
                Ok(
                    int_tensor(
                        joint_shape(a.shape, b.shape),
                        Seq::new(n as nat, |i: int| int_result_at(av, bv, a, b, op, i)->0 as i64),
                    ),
                )
            },
        }
    }
}

/// Whether no result before the first error leaves the range of 64-bit integers.
pub open spec fn int_binary_fits(a: TensorView, b: TensorView, op: BinOp) -> bool {
    match (ints_of(a), ints_of(b)) {
        (Ok(av), Ok(bv)) => joins(a.shape, b.shape) ==> forall|i: int|
            0 <= i < joint_count(a, b) && (forall|j: int|
                0 <= j < i ==> #[trigger] int_result_at(av, bv, a, b, op, j) is Some)
                ==> (#[trigger] int_result_at(av, bv, a, b, op, i) matches Some(v) ==> in_range(v)),
        _ => true,
    }
}

/// Whether `r` is what floating-point arithmetic by `f` gives.
pub open spec fn float_binary_by<F: Fn(BinOp, u32, u32) -> u32>(
    a: TensorView,
    b: TensorView,
    op: BinOp,
    f: F,
    r: Result<HostTensor>,
) -> bool {
    let out = joint_shape(a.shape, b.shape);
    if !joins(a.shape, b.shape) {
        r matches Err(e) && e.kind() == Kind::Shape
    } else {
        match (floats_of(a), floats_of(b)) {
            (Err(k), _) => r matches Err(e) && e.kind() == k,
            (_, Err(k)) => r matches Err(e) && e.kind() == k,
            (Ok(av), Ok(bv)) => r matches Ok(t) && exists|v: Seq<u32>|
                #![trigger float_tensor(out, v)]
                t@ == float_tensor(out, v) && v.len() == joint_count(a, b) && forall|i: int|
                    0 <= i < v.len() ==> call_ensures(
                        f,
                        (op, joint_at(av, a.shape, out, i), joint_at(bv, b.shape, out, i)),
                        #[trigger] v[i],
                    ),
        }
    }
}

/// Arithmetic on two tensors, with broadcasting. Integers, where both operands are integers,
/// give 64-bit integers; else the result is in single precision, by `float_op` on the bits
/// of each pair.
pub fn binary<F: Fn(BinOp, u32, u32) -> u32>(
    a: &HostTensor,
    b: &HostTensor,
    op: BinOp,
    float_op: F,
) -> (r: Result<HostTensor>)
    requires
        int_domain(a.dtype) && int_domain(b.dtype) ==> int_binary_fits(a@, b@, op),
        forall|x: u32, y: u32| #[trigger] call_requires(float_op, (op, x, y)),
    ensures
        if int_domain(a.dtype) && int_domain(b.dtype) {
            gives(r, int_binary_of(a@, b@, op))
        } else {
            float_binary_by(a@, b@, op, float_op, r)
        },
{
    let bc = match broadcast(a.shape.as_slice(), b.shape.as_slice()) {
        Ok(bc) => bc,
        Err(e) => {
            return Err(e);
        },
    };
    let ghost out = joint_shape(a.shape@, b.shape@);
    if is_int(a.dtype) && is_int(b.dtype) {
        let av = match a.to_i64() {
            Ok(v) => v,
            Err(e) => {
                return Err(e);
            },
        };
        let bv = match b.to_i64() {
            Ok(v) => v,
            Err(e) => {
                return Err(e);
            },
        };
        proof {
            lemma_sound_len(a@);
            lemma_sound_len(b@);
            lemma_count(a.shape@);
            lemma_count(b.shape@);
        }
        let places = pair_places(a.shape.as_slice(), b.shape.as_slice(), &bc);
        let n: usize = places.len();
        let mut v: Vec<i64> = Vec::new();
        let mut i: usize = 0;
        while i < n
            invariant
                n == places@.len(),
                n == product(out),
                i <= n,
                out == joint_shape(a.shape@, b.shape@),
                av@.len() == product(a.shape@),
                bv@.len() == product(b.shape@),
                forall|j: int|
                    0 <= j < n ==> (#[trigger] places@[j]).0 == source(a.shape@, out, j)
                        && places@[j].1 == source(b.shape@, out, j) && places@[j].0 < product(
                        a.shape@,
                    ) && places@[j].1 < product(b.shape@),
                joins(a.shape@, b.shape@),
                int_domain(a.dtype),
                int_domain(b.dtype),
                ints_of(a@) == Ok::<Seq<i64>, Kind>(av@),
                ints_of(b@) == Ok::<Seq<i64>, Kind>(bv@),
                int_binary_fits(a@, b@, op),
                v@.len() == i,
                forall|j: int|
                    0 <= j < i ==> #[trigger] int_result_at(av@, bv@, a@, b@, op, j) == Some(
                        v@[j] as int,
                    ),
            decreases n - i,
        {
            let (ia, ib) = places[i];
            assert(int_result_at(av@, bv@, a@, b@, op, i as int) == int_value(
                op,
                av@[ia as int] as int,
                bv@[ib as int] as int,
            ));
            match int_result(op, av[ia], bv[ib]) {
                Some(x) => {
                    v.push(x);
                },
                None => {
                    return Err(invalid_tensor("integer operand out of range"));
                },
            }
            i += 1;
        }
        proof {
            assert forall|i: int| 0 <= i < n implies int_result_at(av@, bv@, a@, b@, op, i) is Some by {}
            assert(v@ =~= Seq::new(
                n as nat,
                |i: int| int_result_at(av@, bv@, a@, b@, op, i)->0 as i64,
            ));
        }
        Ok(HostTensor::from_i64(bc.out_shape, v.as_slice()))
    } else {
        let av = match a.to_f32() {
            Ok(v) => v,
            Err(e) => {
                return Err(e);
            },
        };
        let bv = match b.to_f32() {
            Ok(v) => v,
            Err(e) => {
                return Err(e);
            },
        };
        proof {
            lemma_sound_len(a@);
            lemma_sound_len(b@);
            lemma_count(a.shape@);
            lemma_count(b.shape@);
        }
        let places = pair_places(a.shape.as_slice(), b.shape.as_slice(), &bc);
        let n: usize = places.len();
        let mut v: Vec<u32> = Vec::new();
        let mut i: usize = 0;
        while i < n
            invariant
                n == places@.len(),
                n == product(out),
                i <= n,
                out == joint_shape(a.shape@, b.shape@),
                av@.len() == product(a.shape@),
                bv@.len() == product(b.shape@),
                forall|j: int|
                    0 <= j < n ==> (#[trigger] places@[j]).0 == source(a.shape@, out, j)
                        && places@[j].1 == source(b.shape@, out, j) && places@[j].0 < product(
                        a.shape@,
                    ) && places@[j].1 < product(b.shape@),
                forall|x: u32, y: u32| #[trigger] call_requires(float_op, (op, x, y)),
                v@.len() == i,
                forall|j: int|
                    0 <= j < i ==> call_ensures(
                        float_op,
                        (op, joint_at(av@, a.shape@, out, j), joint_at(bv@, b.shape@, out, j)),
                        #[trigger] v@[j],
                    ),
            decreases n - i,
        {
            let (ia, ib) = places[i];
            let x: u32 = float_op(op, av[ia], bv[ib]);
            v.push(x);
            i += 1;
        }
        let t = HostTensor::from_f32(bc.out_shape, v.as_slice());
        assert(t@ == float_tensor(out, v@));
        Ok(t)
    }
}

/// The number of elements of the result.
fn joint_len(bc: &Broadcast) -> (r: usize)
    requires
        forall|k: int| 0 <= k < bc.out_shape@.len() ==> #[trigger] bc.out_shape@[k] >= 0,
        unit_suffix(bc.out_shape@, 0) <= u32::MAX,
    ensures
        r == product(bc.out_shape@),
{
    let s = &bc.out_shape;
    let mut n: usize = 1;
    let mut d: usize = s.len();
    while d > 0
        invariant
            d <= s@.len(),
            forall|k: int| 0 <= k < s@.len() ==> #[trigger] s@[k] >= 0,
            unit_suffix(s@, 0) <= u32::MAX,
            n == suffix(s@, d as int),
            n <= u32::MAX,
        decreases d,
    {
        d -= 1;
        proof {
            lemma_unit_bound(s@, d as int);
            lemma_unit_suffix(s@, d as int);
            let a = s@[d as int] as int;
            let b = n as int;
            assert(suffix(s@, d as int) == a * b);
            assert(a * b == b * a) by (nonlinear_arith);
            assert(b >= 1 && a >= 0 ==> a <= a * b) by (nonlinear_arith);
            assert(b == 0 ==> a * b == 0) by (nonlinear_arith);
        }
        if n != 0 {
            n = n * (s[d] as usize);
        }
    }
    proof {
        lemma_whole(s@);
    }
    n
}

// --- comparison -------------------------------------------------------------------------

pub open spec fn int_compare(op: CmpOp, x: i64, y: i64) -> bool {
    match op {
        CmpOp::Equal => x == y,
        CmpOp::Less => x < y,
        CmpOp::Greater => x > y,
        CmpOp::LessOrEqual => x <= y,
        CmpOp::And => x != 0 && y != 0,
    }
}

pub open spec fn float_compare(op: CmpOp, x: u32, y: u32) -> bool {
    match op {
        CmpOp::Equal => eq_spec(x, y),
        CmpOp::Less => lt_spec(x, y),
        CmpOp::Greater => lt_spec(y, x),
        CmpOp::LessOrEqual => lt_spec(x, y) || eq_spec(x, y),
        CmpOp::And => !is_zero(x) && !is_zero(y),
    }
}

pub open spec fn as_byte(b: bool) -> u8 {
    if b {
        1
    } else {
        0
    }
}

/// The comparison of two tensors, one truth value for each element.
pub open spec fn compare_of(a: TensorView, b: TensorView, op: CmpOp) -> Outcome<TensorView> {
    let out = joint_shape(a.shape, b.shape);
    let n = joint_count(a, b);
    if !joins(a.shape, b.shape) {
        Err(Kind::Shape)
    } else if int_domain(a.dtype) && int_domain(b.dtype) {
        match (ints_of(a), ints_of(b)) {
            (Err(k), _) => Err(k),
            (_, Err(k)) => Err(k),
            (Ok(av), Ok(bv)) => Ok(
                TensorView {
                    dtype: BOOL,
                    shape: out,
                    data: Seq::new(
                        n as nat,
                        |i: int|
                            as_byte(
                                int_compare(
                                    op,
                                    joint_at(av, a.shape, out, i),
                                    joint_at(bv, b.shape, out, i),
                                ),
                            ),
                    ),
                },
            ),
        }
    } else {
        match (floats_of(a), floats_of(b)) {
            (Err(k), _) => Err(k),
            (_, Err(k)) => Err(k),
            (Ok(av), Ok(bv)) => Ok(
                TensorView {
                    dtype: BOOL,
                    shape: out,
                    data: Seq::new(
                        n as nat,
                        |i: int|
                            as_byte(
                                float_compare(
                                    op,
                                    joint_at(av, a.shape, out, i),
                                    joint_at(bv, b.shape, out, i),
                                ),
                            ),
                    ),
                },
            ),
        }
    }
}

/// The pairs of operand places, one for each element of the result.
pub(crate) fn pair_places(a: &[i64], b: &[i64], bc: &Broadcast) -> (r: Vec<(usize, usize)>)
    requires
        joins(a@, b@),
        count_of(a@) is Some,
        count_of(b@) is Some,
        bc.out_shape@ == joint_shape(a@, b@),
        bc.out_strides@.len() == bc.out_shape@.len(),
        bc.a_strides@.len() == bc.out_shape@.len(),
        bc.b_strides@.len() == bc.out_shape@.len(),
        forall|k: int|
            0 <= k < bc.out_shape@.len() ==> #[trigger] bc.out_strides@[k] == unit_suffix(
                bc.out_shape@,
                k + 1,
            ),
        forall|k: int|
            0 <= k < bc.out_shape@.len() ==> #[trigger] bc.a_strides@[k] == joint_stride(
                a@,
                bc.out_shape@.len() as int,
                k,
            ),
        forall|k: int|
            0 <= k < bc.out_shape@.len() ==> #[trigger] bc.b_strides@[k] == joint_stride(
                b@,
                bc.out_shape@.len() as int,
                k,
            ),
    ensures
        r@.len() == product(joint_shape(a@, b@)),
        forall|i: int|
            0 <= i < r@.len() ==> (#[trigger] r@[i]).0 == source(a@, joint_shape(a@, b@), i)
                && r@[i].1 == source(b@, joint_shape(a@, b@), i) && r@[i].0 < product(a@) && r@[i].1
                < product(b@),
{
    proof {
        lemma_joint_count(a@, b@);
        lemma_joint_fits(a@, b@);
        lemma_count(a@);
        lemma_count(b@);
    }
    let n: usize = joint_len(bc);
    let ghost out = bc.out_shape@;
    let mut r: Vec<(usize, usize)> = Vec::new();
    let mut i: usize = 0;
    while i < n
        invariant
            out == joint_shape(a@, b@),
            n == product(out),
            i <= n,
            n > 0 ==> positive(out),
            fits_into(a@, out),
            fits_into(b@, out),
            joins(a@, b@),
            product(a@) <= usize::MAX,
            product(b@) <= usize::MAX,
            bc.out_strides@.len() == out.len(),
            bc.a_strides@.len() == out.len(),
            bc.b_strides@.len() == out.len(),
            forall|k: int|
                0 <= k < out.len() ==> #[trigger] bc.out_strides@[k] == unit_suffix(out, k + 1),
            forall|k: int|
                0 <= k < out.len() ==> #[trigger] bc.a_strides@[k] == joint_stride(
                    a@,
                    out.len() as int,
                    k,
                ),
            forall|k: int|
                0 <= k < out.len() ==> #[trigger] bc.b_strides@[k] == joint_stride(
                    b@,
                    out.len() as int,
                    k,
                ),
            r@.len() == i,
            forall|j: int|
                0 <= j < i ==> (#[trigger] r@[j]).0 == source(a@, out, j) && r@[j].1 == source(
                    b@,
                    out,
                    j,
                ) && r@[j].0 < product(a@) && r@[j].1 < product(b@),
        decreases n - i,
    {
        let ia: usize = bc_offset(
            bc.out_strides.as_slice(),
            bc.a_strides.as_slice(),
            i,
            Ghost(a@),
            Ghost(out),
        );
        let ib: usize = bc_offset(
            bc.out_strides.as_slice(),
            bc.b_strides.as_slice(),
            i,
            Ghost(b@),
            Ghost(out),
        );
        r.push((ia, ib));
        i += 1;
    }
    r
}

/// Compares two tensors, with broadcasting, and gives one truth value for each element.
pub fn compare(a: &HostTensor, b: &HostTensor, op: CmpOp) -> (r: Result<HostTensor>)
    ensures
        gives(r, compare_of(a@, b@, op)),
{
    let bc = match broadcast(a.shape.as_slice(), b.shape.as_slice()) {
        Ok(bc) => bc,
        Err(e) => {
            return Err(e);
        },
    };
    let ghost out = joint_shape(a.shape@, b.shape@);
    if is_int(a.dtype) && is_int(b.dtype) {
        let av = match a.to_i64() {
            Ok(v) => v,
            Err(e) => {
                return Err(e);
            },
        };
        let bv = match b.to_i64() {
            Ok(v) => v,
            Err(e) => {
                return Err(e);
            },
        };
        proof {
            lemma_sound_len(a@);
            lemma_sound_len(b@);
            lemma_count(a.shape@);
            lemma_count(b.shape@);
        }
        let places = pair_places(a.shape.as_slice(), b.shape.as_slice(), &bc);
        let n: usize = places.len();
        let mut data: Vec<u8> = Vec::new();
        let mut i: usize = 0;
        while i < n
            invariant
                n == places@.len(),
                i <= n,
                out == joint_shape(a.shape@, b.shape@),
                av@.len() == product(a.shape@),
                bv@.len() == product(b.shape@),
                forall|j: int|
                    0 <= j < n ==> (#[trigger] places@[j]).0 == source(a.shape@, out, j)
                        && places@[j].1 == source(b.shape@, out, j) && places@[j].0 < product(
                        a.shape@,
                    ) && places@[j].1 < product(b.shape@),
                data@ == Seq::new(
                    i as nat,
                    |j: int|
                        as_byte(
                            int_compare(
                                op,
                                joint_at(av@, a.shape@, out, j),
                                joint_at(bv@, b.shape@, out, j),
                            ),
                        ),
                ),
            decreases n - i,
        {
            let (ia, ib) = places[i];
            let x: i64 = av[ia];
            let y: i64 = bv[ib];
            let t = match op {
                CmpOp::Equal => x == y,
                CmpOp::Less => x < y,
                CmpOp::Greater => x > y,
                CmpOp::LessOrEqual => x <= y,
                CmpOp::And => x != 0 && y != 0,
            };
            data.push(
                if t {
                    1
                } else {
                    0
                },
            );
            i += 1;
            assert(data@ =~= Seq::new(
                i as nat,
                |j: int|
                    as_byte(
                        int_compare(
                            op,
                            joint_at(av@, a.shape@, out, j),
                            joint_at(bv@, b.shape@, out, j),
                        ),
                    ),
            ));
        }
        Ok(HostTensor { dtype: BOOL, shape: bc.out_shape, data })
    } else {
        let av = match a.to_f32() {
            Ok(v) => v,
            Err(e) => {
                return Err(e);
            },
        };
        let bv = match b.to_f32() {
            Ok(v) => v,
            Err(e) => {
                return Err(e);
            },
        };
        proof {
            lemma_sound_len(a@);
            lemma_sound_len(b@);
            lemma_count(a.shape@);
            lemma_count(b.shape@);
        }
        let places = pair_places(a.shape.as_slice(), b.shape.as_slice(), &bc);
        let n: usize = places.len();
        let mut data: Vec<u8> = Vec::new();
        let mut i: usize = 0;
        while i < n
            invariant
                n == places@.len(),
                i <= n,
                out == joint_shape(a.shape@, b.shape@),
                av@.len() == product(a.shape@),
                bv@.len() == product(b.shape@),
                forall|j: int|
                    0 <= j < n ==> (#[trigger] places@[j]).0 == source(a.shape@, out, j)
                        && places@[j].1 == source(b.shape@, out, j) && places@[j].0 < product(
                        a.shape@,
                    ) && places@[j].1 < product(b.shape@),
                data@ == Seq::new(
                    i as nat,
                    |j: int|
                        as_byte(
                            float_compare(
                                op,
                                joint_at(av@, a.shape@, out, j),
                                joint_at(bv@, b.shape@, out, j),
                            ),
                        ),
                ),
            decreases n - i,
        {
            let (ia, ib) = places[i];
            let x: u32 = av[ia];
            let y: u32 = bv[ib];
            let t = match op {
                CmpOp::Equal => f32_eq(x, y),
                CmpOp::Less => f32_lt(x, y),
                CmpOp::Greater => f32_lt(y, x),
                CmpOp::LessOrEqual => f32_lt(x, y) || f32_eq(x, y),
                CmpOp::And => x != 0 && x != 0x8000_0000 && y != 0 && y != 0x8000_0000,
            };
            data.push(
                if t {
                    1
                } else {
                    0
                },
            );
            i += 1;
            assert(data@ =~= Seq::new(
                i as nat,
                |j: int|
                    as_byte(
                        float_compare(
                            op,
                            joint_at(av@, a.shape@, out, j),
                            joint_at(bv@, b.shape@, out, j),
                        ),
                    ),
            ));
        }
        Ok(HostTensor { dtype: BOOL, shape: bc.out_shape, data })
    }
}

// --- remainders -------------------------------------------------------------------------

/// The remainder of element `i`: with the sign of the dividend, or else of the divisor.
pub open spec fn int_mod_at(
    av: Seq<i64>,
    bv: Seq<i64>,
    a: TensorView,
    b: TensorView,
    fmod: bool,
    i: int,
) -> int {
    let out = joint_shape(a.shape, b.shape);
    let x = joint_at(av, a.shape, out, i) as int;
    let y = joint_at(bv, b.shape, out, i) as int;
    if fmod {
        remainder(x, y)
    } else {
        floored_remainder(x, y)
    }
}

/// The divisor of element `i`.
pub open spec fn divisor_at(bv: Seq<i64>, a: TensorView, b: TensorView, i: int) -> i64 {
    joint_at(bv, b.shape, joint_shape(a.shape, b.shape), i)
}

/// The remainders of integer tensors, in the type of the dividend.
pub open spec fn int_modulo_of(a: TensorView, b: TensorView, fmod: bool) -> Outcome<TensorView> {
    let n = joint_count(a, b);
    if !joins(a.shape, b.shape) {
        Err(Kind::Shape)
    } else {
        match (ints_of(a), ints_of(b)) {
            (Err(k), _) => Err(k),
            (_, Err(k)) => Err(k),
            (Ok(av), Ok(bv)) => if exists|i: int|
                0 <= i < n && #[trigger] divisor_at(bv, a, b, i) == 0 {
                Err(Kind::Tensor)
            } else {
                returned_of(
                    int_tensor(
                        joint_shape(a.shape, b.shape),
                        Seq::new(n as nat, |i: int| int_mod_at(av, bv, a, b, fmod, i) as i64),
                    ),
                    a.dtype,
                )
            },
        }
    }
}

/// Whether `r` is what the floating-point remainder `f` gives.
pub open spec fn float_modulo_by<F: Fn(u32, u32) -> u32>(
    a: TensorView,
    b: TensorView,
    fmod: bool,
    f: F,
    r: Result<HostTensor>,
) -> bool {
    let out = joint_shape(a.shape, b.shape);
    if !joins(a.shape, b.shape) {
        r matches Err(e) && e.kind() == Kind::Shape
    } else if !fmod {
        r matches Err(e) && e.kind() == Kind::Tensor
    } else {
        match (floats_of(a), floats_of(b)) {
            (Err(k), _) => r matches Err(e) && e.kind() == k,
            (_, Err(k)) => r matches Err(e) && e.kind() == k,
            (Ok(av), Ok(bv)) => r matches Ok(t) && exists|v: Seq<u32>|
                #![trigger float_tensor(out, v)]
                t@ == float_tensor(out, v) && v.len() == joint_count(a, b) && forall|i: int|
                    0 <= i < v.len() ==> call_ensures(
                        f,
                        (joint_at(av, a.shape, out, i), joint_at(bv, b.shape, out, i)),
                        #[trigger] v[i],
                    ),
        }
    }
}

/// The remainder of one integer pair.
fn int_remainder(x: i64, y: i64, fmod: bool) -> (r: i64)
    requires
        y != 0,
    ensures
        r == if fmod {
            remainder(x as int, y as int)
        } else {
            floored_remainder(x as int, y as int)
        },
{
    let r: i64 = remainder_of(x, y);
    proof {
        law_quotient_remainder(x as int, y as int);
    }
    if !fmod && r != 0 && (r < 0) != (y < 0) {
        r + y
    } else {
        r
    }
}

/// Remainders, with broadcasting. On integers `fmod` chooses between the remainder with the
/// sign of the dividend and the one with the sign of the divisor; on floating-point numbers
/// only the first is defined, and `float_rem` computes it on the bits of each pair.
pub fn modulo<F: Fn(u32, u32) -> u32>(
    a: &HostTensor,
    b: &HostTensor,
    fmod: bool,
    float_rem: F,
) -> (r: Result<HostTensor>)
    requires
        forall|x: u32, y: u32| #[trigger] call_requires(float_rem, (x, y)),
    ensures
        if int_domain(a.dtype) && int_domain(b.dtype) {
            gives(r, int_modulo_of(a@, b@, fmod))
        } else {
            float_modulo_by(a@, b@, fmod, float_rem, r)
        },
{
    let bc = match broadcast(a.shape.as_slice(), b.shape.as_slice()) {
        Ok(bc) => bc,
        Err(e) => {
            return Err(e);
        },
    };
    let ghost out = joint_shape(a.shape@, b.shape@);
    if is_int(a.dtype) && is_int(b.dtype) {
        let av = match a.to_i64() {
            Ok(v) => v,
            Err(e) => {
                return Err(e);
            },
        };
        let bv = match b.to_i64() {
            Ok(v) => v,
            Err(e) => {
                return Err(e);
            },
        };
        proof {
            lemma_sound_len(a@);
            lemma_sound_len(b@);
            lemma_count(a.shape@);
            lemma_count(b.shape@);
        }
        let places = pair_places(a.shape.as_slice(), b.shape.as_slice(), &bc);
        let n: usize = places.len();
        let mut v: Vec<i64> = Vec::new();
        let mut i: usize = 0;
        while i < n
            invariant
                n == places@.len(),
                n == product(out),
                i <= n,
                out == joint_shape(a.shape@, b.shape@),
                av@.len() == product(a.shape@),
                bv@.len() == product(b.shape@),
                forall|j: int|
                    0 <= j < n ==> (#[trigger] places@[j]).0 == source(a.shape@, out, j)
                        && places@[j].1 == source(b.shape@, out, j) && places@[j].0 < product(
                        a.shape@,
                    ) && places@[j].1 < product(b.shape@),
                joins(a.shape@, b.shape@),
                int_domain(a.dtype),
                int_domain(b.dtype),
                ints_of(a@) == Ok::<Seq<i64>, Kind>(av@),
                ints_of(b@) == Ok::<Seq<i64>, Kind>(bv@),
                forall|j: int| 0 <= j < i ==> #[trigger] divisor_at(bv@, a@, b@, j) != 0,
                v@ == Seq::new(i as nat, |j: int| int_mod_at(av@, bv@, a@, b@, fmod, j) as i64),
            decreases n - i,
        {
            let (ia, ib) = places[i];
            let x: i64 = av[ia];
            let y: i64 = bv[ib];
            assert(divisor_at(bv@, a@, b@, i as int) == y);
            if y == 0 {
                return Err(invalid_tensor("division by zero"));
            }
            let m: i64 = int_remainder(x, y, fmod);
            assert(m == int_mod_at(av@, bv@, a@, b@, fmod, i as int));
            v.push(m);
            i += 1;
            assert(v@ =~= Seq::new(
                i as nat,
                |j: int| int_mod_at(av@, bv@, a@, b@, fmod, j) as i64,
            ));
        }
        returned(&HostTensor::from_i64(bc.out_shape, v.as_slice()), a.dtype)
    } else {
        if !fmod {
            return Err(invalid_tensor("remainder with the divisor's sign is for integers only"));
        }
        let av = match a.to_f32() {
            Ok(v) => v,
            Err(e) => {
                return Err(e);
            },
        };
        let bv = match b.to_f32() {
            Ok(v) => v,
            Err(e) => {
                return Err(e);
            },
        };
        proof {
            lemma_sound_len(a@);
            lemma_sound_len(b@);
            lemma_count(a.shape@);
            lemma_count(b.shape@);
        }
        let places = pair_places(a.shape.as_slice(), b.shape.as_slice(), &bc);
        let n: usize = places.len();
        let mut v: Vec<u32> = Vec::new();
        let mut i: usize = 0;
        while i < n
            invariant
                n == places@.len(),
                n == product(out),
                i <= n,
                out == joint_shape(a.shape@, b.shape@),
                av@.len() == product(a.shape@),
                bv@.len() == product(b.shape@),
                forall|j: int|
                    0 <= j < n ==> (#[trigger] places@[j]).0 == source(a.shape@, out, j)
                        && places@[j].1 == source(b.shape@, out, j) && places@[j].0 < product(
                        a.shape@,
                    ) && places@[j].1 < product(b.shape@),
                forall|x: u32, y: u32| #[trigger] call_requires(float_rem, (x, y)),
                v@.len() == i,
                forall|j: int|
                    0 <= j < i ==> call_ensures(
                        float_rem,
                        (joint_at(av@, a.shape@, out, j), joint_at(bv@, b.shape@, out, j)),
                        #[trigger] v@[j],
                    ),
            decreases n - i,
        {
            let (ia, ib) = places[i];
            let x: u32 = float_rem(av[ia], bv[ib]);
            v.push(x);
            i += 1;
        }
        let t = HostTensor::from_f32(bc.out_shape, v.as_slice());
        assert(t@ == float_tensor(out, v@));
        Ok(t)
    }
}

// --- single operands --------------------------------------------------------------------

/// Each number rounded down to a whole one; integers stay as they are.
pub open spec fn floor_of(t: TensorView) -> Outcome<TensorView> {
    match fault(t) {
        Some(k) => Err(k),
        None => if int_domain(t.dtype) {
            Ok(t)
        } else {
            match floats_of(t) {
                Ok(v) => Ok(float_tensor(t.shape, v.map_values(|b: u32| floor_spec(b)))),
                Err(k) => Err(k),
            }
        },
    }
}

/// Rounds each number down to a whole one.
pub fn floor(x: &HostTensor) -> (r: Result<HostTensor>)
    ensures
        gives(r, floor_of(x@)),
{
    match x.validate() {
        Ok(_) => {},
        Err(e) => {
            return Err(e);
        },
    }
    if is_int(x.dtype) {
        return Ok(x.duplicate());
    }
    let bits = match x.to_f32() {
        Ok(v) => v,
        Err(e) => {
            return Err(e);
        },
    };
    let n: usize = bits.len();
    let mut v: Vec<u32> = Vec::new();
    let mut i: usize = 0;
    while i < n
        invariant
            n == bits@.len(),
            i <= n,
            v@ == bits@.take(i as int).map_values(|b: u32| floor_spec(b)),
        decreases n - i,
    {
        v.push(f32_floor(bits[i]));
        i += 1;
        assert(v@ =~= bits@.take(i as int).map_values(|b: u32| floor_spec(b)));
    }
    assert(bits@.take(n as int) =~= bits@);
    Ok(HostTensor::from_f32(copy_dims(x.shape.as_slice()), v.as_slice()))
}

/// The truth values turned round: 1 where the element is zero.
pub open spec fn not_of(t: TensorView) -> Outcome<TensorView> {
    match ints_of(t) {
        Ok(v) => Ok(
            TensorView {
                dtype: BOOL,
                shape: t.shape,
                data: v.map_values(|e: i64| as_byte(e == 0)),
            },
        ),
        Err(k) => Err(k),
    }
}

/// Turns each truth value round.
pub fn not(x: &HostTensor) -> (r: Result<HostTensor>)
    ensures
        gives(r, not_of(x@)),
{
    let v = match x.to_i64() {
        Ok(v) => v,
        Err(e) => {
            return Err(e);
        },
    };
    let n: usize = v.len();
    let mut data: Vec<u8> = Vec::new();
    let mut i: usize = 0;
    while i < n
        invariant
            n == v@.len(),
            i <= n,
            data@ == v@.take(i as int).map_values(|e: i64| as_byte(e == 0)),
        decreases n - i,
    {
        data.push(
            if v[i] == 0 {
                1
            } else {
                0
            },
        );
        i += 1;
        assert(data@ =~= v@.take(i as int).map_values(|e: i64| as_byte(e == 0)));
    }
    assert(v@.take(n as int) =~= v@);
    Ok(HostTensor { dtype: BOOL, shape: copy_dims(x.shape.as_slice()), data })
}

} // verus!
