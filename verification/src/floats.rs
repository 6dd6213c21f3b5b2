//! Single-precision numbers, held as their 32 bits.
//!
//! Conversion to and from integers, order, rounding down and multiplication are computed
//! on integers, so that each has an exact meaning: a finite number is `mantissa * 2^scale`.

use vstd::arithmetic::power2::{
    lemma2_to64, lemma2_to64_rest, lemma_pow2_adds, lemma_pow2_pos, lemma_pow2_strictly_increases,
    lemma_pow2_unfold, pow2,
};
use vstd::prelude::*;

verus! {

/// The bits of 1.0.
pub const ONE: u32 = 0x3f80_0000;

/// The bits of positive infinity.
pub const INFINITY: u32 = 0x7f80_0000;

/// The bits that stand for "not a number" in results.
pub const NAN: u32 = 0x7fc0_0000;

pub open spec fn is_negative(b: u32) -> bool {
    b >= 0x8000_0000
}

/// The bits without the sign.
pub open spec fn magnitude(b: u32) -> int {
    if b >= 0x8000_0000 {
        b - 0x8000_0000
    } else {
        b as int
    }
}

pub open spec fn exponent_field(b: u32) -> int {
    magnitude(b) / 0x80_0000
}

pub open spec fn is_nan(b: u32) -> bool {
    magnitude(b) > 0x7f80_0000
}

pub open spec fn is_infinite(b: u32) -> bool {
    magnitude(b) == 0x7f80_0000
}

pub open spec fn is_zero(b: u32) -> bool {
    magnitude(b) == 0
}

/// The mantissa, with the leading one that normal numbers leave out.
pub open spec fn mantissa(b: u32) -> nat {
    if exponent_field(b) == 0 {
        magnitude(b) as nat
    } else {
        (magnitude(b) % 0x80_0000 + 0x80_0000) as nat
    }
}

/// The power of two that the mantissa is multiplied by.
pub open spec fn scale(b: u32) -> int {
    if exponent_field(b) == 0 {
        -149
    } else {
        exponent_field(b) - 150
    }
}

/// The number in units of the smallest positive one; infinities lie beyond all others.
pub open spec fn units(b: u32) -> int {
    let m = (mantissa(b) * pow2((scale(b) + 149) as nat)) as int;
    if is_negative(b) {
        -m
    } else {
        m
    }
}

// --- comparison -------------------------------------------------------------------------

/// Whether `x` and `y` are equal as numbers.
pub open spec fn eq_spec(x: u32, y: u32) -> bool {
    !is_nan(x) && !is_nan(y) && units(x) == units(y)
}

/// Whether `x` is less than `y` as a number.
pub open spec fn lt_spec(x: u32, y: u32) -> bool {
    !is_nan(x) && !is_nan(y) && units(x) < units(y)
}

/// The place of `b` in the total order of all bit patterns: negative ones, largest magnitude
/// first, then positive ones, smallest first.
pub open spec fn total_place(b: u32) -> int {
    if is_negative(b) {
        -1 - magnitude(b)
    } else {
        magnitude(b)
    }
}

/// Magnitudes order as the numbers they stand for.
proof fn lemma_units_grow(x: u32, y: u32)
    requires
        magnitude(x) < magnitude(y),
    ensures
        mantissa(x) * pow2((scale(x) + 149) as nat) < mantissa(y) * pow2((scale(y) + 149) as nat),
{
    let ex = exponent_field(x);
    let ey = exponent_field(y);
    let px = pow2((scale(x) + 149) as nat);
    let py = pow2((scale(y) + 149) as nat);
    let mx = mantissa(x);
    let my = mantissa(y);
    lemma_pow2_pos((scale(x) + 149) as nat);
    lemma_pow2_pos((scale(y) + 149) as nat);
    lemma2_to64();
    assert(ex <= ey);
    if scale(x) == scale(y) {
        assert(mx < my);
        assert(mx * px < my * px) by (nonlinear_arith)
            requires
                mx < my,
                px > 0,
        ;
    } else {
        assert(ey > ex && ey > 1);
        assert(mx < 0x100_0000 && my >= 0x80_0000);
        let g = (scale(y) - scale(x) - 1) as nat;
        lemma_pow2_adds((scale(x) + 149) as nat, 1);
        lemma_pow2_adds((scale(x) + 150) as nat, g);
        lemma_pow2_pos(g);
        assert(py == px * 2 * pow2(g));
        assert(mx * px < my * py) by (nonlinear_arith)
            requires
                mx < 0x100_0000,
                my >= 0x80_0000,
                px > 0,
                py == px * 2 * pow2(g),
                pow2(g) >= 1,
        ;
    }
}

proof fn lemma_units_zero(x: u32)
    ensures
        is_zero(x) ==> units(x) == 0,
        !is_zero(x) ==> mantissa(x) * pow2((scale(x) + 149) as nat) > 0,
{
    lemma_pow2_pos((scale(x) + 149) as nat);
    lemma2_to64();
    let m = mantissa(x);
    let p = pow2((scale(x) + 149) as nat);
    assert(m > 0 && p > 0 ==> m * p > 0) by (nonlinear_arith);
    assert(m == 0 ==> m * p == 0) by (nonlinear_arith);
}

/// The sign and magnitude as one signed number.
fn signed_magnitude(b: u32) -> (r: i64)
    ensures
        r == if is_negative(b) {
            -magnitude(b)
        } else {
            magnitude(b)
        },
{
    if b >= 0x8000_0000 {
        -((b - 0x8000_0000) as i64)
    } else {
        b as i64
    }
}

proof fn lemma_order(x: u32, y: u32)
    ensures
        ({
            let kx = if is_negative(x) {
                -magnitude(x)
            } else {
                magnitude(x)
            };
            let ky = if is_negative(y) {
                -magnitude(y)
            } else {
                magnitude(y)
            };
            (kx < ky <==> units(x) < units(y)) && (kx == ky <==> units(x) == units(y))
        }),
{
    lemma_units_zero(x);
    lemma_units_zero(y);
    if magnitude(x) < magnitude(y) {
        lemma_units_grow(x, y);
    } else if magnitude(y) < magnitude(x) {
        lemma_units_grow(y, x);
    }
}

/// `x == y` on numbers: zeros of either sign are equal, "not a number" equals nothing.
pub fn f32_eq(x: u32, y: u32) -> (r: bool)
    ensures
        r == eq_spec(x, y),
{
    proof {
        lemma_order(x, y);
    }
    !nan(x) && !nan(y) && signed_magnitude(x) == signed_magnitude(y)
}

/// `x < y` on numbers.
pub fn f32_lt(x: u32, y: u32) -> (r: bool)
    ensures
        r == lt_spec(x, y),
{
    proof {
        lemma_order(x, y);
    }
    !nan(x) && !nan(y) && signed_magnitude(x) < signed_magnitude(y)
}

fn nan(x: u32) -> (r: bool)
    ensures
        r == is_nan(x),
{
    if x >= 0x8000_0000 {
        x - 0x8000_0000 > 0x7f80_0000
    } else {
        x > 0x7f80_0000
    }
}

/// The place of `b` in the total order of all bit patterns.
pub fn total_order(b: u32) -> (r: i64)
    ensures
        r == total_place(b),
{
    if b >= 0x8000_0000 {
        -1 - (b - 0x8000_0000) as i64
    } else {
        b as i64
    }
}

// --- to integers ------------------------------------------------------------------------

/// The number without its fraction, sign left aside.
pub open spec fn whole_magnitude(b: u32) -> nat {
    if scale(b) >= 0 {
        mantissa(b) * pow2(scale(b) as nat)
    } else {
        mantissa(b) / pow2((-scale(b)) as nat)
    }
}

/// The number without its fraction, held within the range of 64-bit integers; 0 for "not a
/// number".
pub open spec fn to_i64_spec(b: u32) -> int {
    let w = whole_magnitude(b) as int;
    if is_nan(b) {
        0
    } else if is_negative(b) {
        if w > 0x8000_0000_0000_0000 {
            -0x8000_0000_0000_0000
        } else {
            -w
        }
    } else if w > 0x7fff_ffff_ffff_ffff {
        0x7fff_ffff_ffff_ffff
    } else {
        w
    }
}

/// `2^k`.
pub fn power_of_two(k: u32) -> (r: u64)
    requires
        k < 64,
    ensures
        r == pow2(k as nat),
        r > 0,
{
    let s: u64 = k as u64;
    proof {
        lemma2_to64_rest();
        lemma_pow2_pos(k as nat);
        if k < 63 {
            lemma_pow2_strictly_increases(k as nat, 63);
        }
        vstd::bits::lemma_u64_shl_is_mul(1, s);
    }
    1u64 << s
}

/// The number in `b` as an integer: its fraction is dropped, what is out of range is held at
/// the nearest bound, and "not a number" gives 0.
pub fn f32_to_i64(b: u32) -> (r: i64)
    ensures
        r == to_i64_spec(b),
{
    if nan(b) {
        return 0;
    }
    let neg = b >= 0x8000_0000;
    let mag: u32 = if neg {
        b - 0x8000_0000
    } else {
        b
    };
    let exp: u32 = mag / 0x80_0000;
    let ghost whole = whole_magnitude(b);
    proof {
        lemma2_to64();
        lemma2_to64_rest();
    }
    if exp < 127 {
        proof {
            let d = (-scale(b)) as nat;
            lemma_pow2_pos(d);
            if exp == 0 {
                if d > 24 {
                    lemma_pow2_strictly_increases(24, d);
                }
            } else if d > 24 {
                lemma_pow2_strictly_increases(24, d);
            }
            assert(mantissa(b) < pow2(d));
            vstd::arithmetic::div_mod::lemma_basic_div(mantissa(b) as int, pow2(d) as int);
        }
        return 0;
    }
    let man: u64 = (mag % 0x80_0000 + 0x80_0000) as u64;
    if exp >= 190 {
        proof {
            let k = scale(b) as nat;
            if k > 40 {
                lemma_pow2_strictly_increases(40, k);
            }
            let p = pow2(k);
            let m = mantissa(b);
            assert(m * p >= 0x8000_0000_0000_0000) by (nonlinear_arith)
                requires
                    m >= 0x80_0000,
                    p >= 0x100_0000_0000,
            ;
        }
        return if neg {
            i64::MIN
        } else {
            i64::MAX
        };
    }
    let w: u64 = if exp >= 150 {
        let p: u64 = power_of_two(exp - 150);
        proof {
            let k = scale(b) as nat;
            if k < 39 {
                lemma_pow2_strictly_increases(k, 39);
            }
            assert(man * p < 0x8000_0000_0000_0000) by (nonlinear_arith)
                requires
                    man < 0x100_0000,
                    p <= 0x80_0000_0000,
            ;
        }
        man * p
    } else {
        let p: u64 = power_of_two(150 - exp);
        proof {
            assert(man / p <= man) by (nonlinear_arith)
                requires
                    p > 0,
            ;
        }
        man / p
    };
    assert(w == whole);
    if neg {
        -(w as i64)
    } else {
        w as i64
    }
}

// --- from integers, and multiplication --------------------------------------------------

/// The number of binary digits of `n`.
pub open spec fn bit_length(n: nat) -> nat
    decreases n,
{
    if n == 0 {
        0
    } else {
        1 + bit_length(n / 2)
    }
}

/// `n / 2^s`, rounded to the nearest integer, halves to the even one.
pub open spec fn half_even(n: nat, s: nat) -> nat {
    let u = pow2(s);
    let q = n / u;
    let r = n % u;
    if 2 * r > u || (2 * r == u && q % 2 == 1) {
        q + 1
    } else {
        q
    }
}

/// The scale of the single-precision numbers nearest to `p * 2^e`.
pub open spec fn target_scale(p: nat, e: int) -> int {
    let top = e + bit_length(p) - 1;
    if top - 23 > -149 {
        top - 23
    } else {
        -149
    }
}

/// The mantissa at that scale, rounded to nearest, halves to even.
pub open spec fn target_mantissa(p: nat, e: int) -> nat {
    let q = target_scale(p, e);
    if q <= e {
        p * pow2((e - q) as nat)
    } else {
        half_even(p, (q - e) as nat)
    }
}

/// The bits of the single-precision number nearest to `p * 2^e`, with the given sign.
/// A mantissa that rounds up to the next power of two carries into the exponent.
pub open spec fn nearest(neg: bool, p: nat, e: int) -> u32 {
    let sign: int = if neg {
        0x8000_0000
    } else {
        0
    };
    let mag = (target_scale(p, e) + 149) * 0x80_0000 + target_mantissa(p, e);
    if p == 0 {
        sign as u32
    } else if mag >= 0x7f80_0000 {
        (sign + 0x7f80_0000) as u32
    } else {
        (sign + mag) as u32
    }
}

pub proof fn lemma_bit_length(n: nat)
    ensures
        n > 0 ==> bit_length(n) >= 1 && pow2((bit_length(n) - 1) as nat) <= n,
        n < pow2(bit_length(n)),
    decreases n,
{
    lemma2_to64();
    if n > 0 {
        lemma_bit_length(n / 2);
        let l = bit_length(n / 2);
        lemma_pow2_unfold(l + 1);
        if n / 2 > 0 {
            lemma_pow2_unfold(l);
        }
    }
}

/// Counts the binary digits of `n`.
fn digits(n: u64) -> (r: u32)
    ensures
        r == bit_length(n as nat),
        r <= 64,
{
    let mut m: u64 = n;
    let mut k: u32 = 0;
    proof {
        lemma2_to64();
        lemma_bit_length(n as nat);
    }
    while m > 0
        invariant
            k + bit_length(m as nat) == bit_length(n as nat),
            k <= 64,
            m as nat * pow2(k as nat) <= n,
        decreases m,
    {
        proof {
            lemma2_to64();
            lemma_pow2_unfold((k + 1) as nat);
            let a = m as int;
            let h = (m / 2) as int;
            let p = pow2(k as nat) as int;
            if k == 64 {
                assert(a * p >= 0x1_0000_0000_0000_0000) by (nonlinear_arith)
                    requires
                        a >= 1,
                        p >= 0x1_0000_0000_0000_0000,
                ;
            }
            assert(h * (2 * p) <= a * p) by (nonlinear_arith)
                requires
                    2 * h <= a,
                    p >= 0,
            ;
        }
        m = m / 2;
        k = k + 1;
    }
    k
}

/// Rounds `p * 2^e` to a single-precision number.
pub fn round_f32(neg: bool, p: u64, e: i32) -> (r: u32)
    requires
        -1000 <= e <= 1000,
    ensures
        r == nearest(neg, p as nat, e as int),
{
    let sign: u64 = if neg {
        0x8000_0000
    } else {
        0
    };
    if p == 0 {
        return sign as u32;
    }
    let len: u32 = digits(p);
    let top: i32 = e + len as i32 - 1;
    let q: i32 = if top - 23 > -149 {
        top - 23
    } else {
        -149
    };
    let ghost pn = p as nat;
    proof {
        lemma2_to64();
        lemma_bit_length(pn);
    }
    let m: u64 = if q <= e {
        let k: u32 = (e - q) as u32;
        let f: u64 = power_of_two(k);
        proof {
            assert(k + len <= 24);
            lemma_pow2_adds(len as nat, k as nat);
            if k + len < 24 {
                lemma_pow2_strictly_increases((k + len) as nat, 24);
            }
            let pl = pow2(len as nat) as int;
            assert(p * f <= pl * f) by (nonlinear_arith)
                requires
                    p <= pl,
                    f > 0,
            ;
        }
        p * f
    } else {
        let s: u32 = (q - e) as u32;
        proof {
            lemma_pow2_pos(s as nat);
        }
        if s > 64 {
            proof {
                lemma_pow2_strictly_increases(64, s as nat);
                lemma_pow2_unfold(s as nat);
                lemma_pow2_strictly_increases(64, s as nat);
                if s > 65 {
                    lemma_pow2_strictly_increases(65, s as nat);
                }
                lemma_pow2_unfold(65);
                vstd::arithmetic::div_mod::lemma_basic_div(p as int, pow2(s as nat) as int);
                vstd::arithmetic::div_mod::lemma_small_mod(pn, pow2(s as nat));
            }
            0
        } else if s == 64 {
            proof {
                vstd::arithmetic::div_mod::lemma_basic_div(p as int, pow2(64) as int);
                vstd::arithmetic::div_mod::lemma_small_mod(pn, pow2(64));
            }
            if p > 0x8000_0000_0000_0000 {
                1
            } else {
                0
            }
        } else {
            let u: u64 = power_of_two(s);
            let d: u64 = p / u;
            let r: u64 = p % u;
            let half: u64 = u / 2;
            proof {
                lemma_pow2_unfold(s as nat);
                assert(u == 2 * half);
                lemma_quotient_bound(pn, len as nat, s as nat);
            }
            if r > half || (r == half && d % 2 == 1) {
                d + 1
            } else {
                d
            }
        }
    };
    proof {
        assert(m as nat == target_mantissa(pn, e as int));
        assert(q as int == target_scale(pn, e as int));
        assert(m <= 0x100_0001);
    }
    let mag: u64 = (q + 149) as u64 * 0x80_0000 + m;
    if mag >= 0x7f80_0000 {
        (sign + 0x7f80_0000) as u32
    } else {
        (sign + mag) as u32
    }
}

proof fn lemma_quotient_bound(p: nat, len: nat, s: nat)
    requires
        p < pow2(len),
        len <= s + 24,
    ensures
        p / pow2(s) < 0x100_0000,
{
    lemma2_to64();
    lemma_pow2_pos(s);
    lemma_pow2_adds(24, s);
    if len < s + 24 {
        lemma_pow2_strictly_increases(len, s + 24);
    }
    let u = pow2(s) as int;
    let n = p as int;
    assert(n / u < 0x100_0000) by (nonlinear_arith)
        requires
            n < 0x100_0000 * u,
            u > 0,
    ;
}

/// The bits of the single-precision number nearest to `v`.
pub open spec fn from_i64_spec(v: int) -> u32 {
    nearest(v < 0, (if v < 0 {
        -v
    } else {
        v
    }) as nat, 0)
}

/// The single-precision number nearest to `v`, halves to even.
pub fn f32_from_i64(v: i64) -> (r: u32)
    ensures
        r == from_i64_spec(v as int),
{
    let m: u64 = if v >= 0 {
        v as u64
    } else {
        (-(v + 1)) as u64 + 1
    };
    round_f32(v < 0, m, 0)
}

/// The bits of the product of two numbers, rounded to nearest.
pub open spec fn mul_spec(x: u32, y: u32) -> u32 {
    let neg = is_negative(x) != is_negative(y);
    if is_nan(x) || is_nan(y) || (is_infinite(x) && is_zero(y)) || (is_zero(x) && is_infinite(y)) {
        NAN
    } else if is_infinite(x) || is_infinite(y) {
        if neg {
            0xff80_0000
        } else {
            INFINITY
        }
    } else {
        nearest(neg, mantissa(x) * mantissa(y), scale(x) + scale(y))
    }
}

/// The product of two numbers, rounded to nearest, halves to even.
pub fn f32_mul(x: u32, y: u32) -> (r: u32)
    ensures
        r == mul_spec(x, y),
{
    let nx = x >= 0x8000_0000;
    let ny = y >= 0x8000_0000;
    let mx: u32 = if nx {
        x - 0x8000_0000
    } else {
        x
    };
    let my: u32 = if ny {
        y - 0x8000_0000
    } else {
        y
    };
    let neg = nx != ny;
    if mx > 0x7f80_0000 || my > 0x7f80_0000 || (mx == 0x7f80_0000 && my == 0) || (mx == 0 && my
        == 0x7f80_0000) {
        return NAN;
    }
    if mx == 0x7f80_0000 || my == 0x7f80_0000 {
        return if neg {
            0xff80_0000
        } else {
            INFINITY
        };
    }
    let (a, ea) = split_parts(x, mx);
    let (b, eb) = split_parts(y, my);
    proof {
        assert(a * b < 0x1_0000_0000_0000) by (nonlinear_arith)
            requires
                0 <= a < 0x100_0000,
                0 <= b < 0x100_0000,
        ;
        assert((a * b) as nat == mantissa(x) * mantissa(y));
    }
    round_f32(neg, a * b, ea + eb)
}

fn split_parts(b: u32, mag: u32) -> (r: (u64, i32))
    requires
        mag == magnitude(b),
        mag < 0x7f80_0000,
    ensures
        r.0 == mantissa(b),
        r.0 < 0x100_0000,
        r.1 == scale(b),
        -149 <= r.1 < 105,
{
    let exp: u32 = mag / 0x80_0000;
    if exp == 0 {
        (mag as u64, -149)
    } else {
        ((mag % 0x80_0000 + 0x80_0000) as u64, exp as i32 - 150)
    }
}

// --- rounding down ----------------------------------------------------------------------

/// The bits of the greatest whole number that is not above the number in `b`. Numbers that
/// are whole already, infinities and "not a number" stay as they are.
pub open spec fn floor_spec(b: u32) -> u32 {
    let e = exponent_field(b);
    if e >= 150 || is_zero(b) {
        b
    } else if e < 127 {
        if is_negative(b) {
            0xbf80_0000
        } else {
            0
        }
    } else {
        let unit = pow2((150 - e) as nat) as int;
        let over = magnitude(b) % unit;
        if over == 0 {
            b
        } else if is_negative(b) {
            (b - over + unit) as u32
        } else {
            (b - over) as u32
        }
    }
}

/// The greatest whole number not above the number in `b`.
pub fn f32_floor(b: u32) -> (r: u32)
    ensures
        r == floor_spec(b),
{
    let neg = b >= 0x8000_0000;
    let mag: u32 = if neg {
        b - 0x8000_0000
    } else {
        b
    };
    let exp: u32 = mag / 0x80_0000;
    if exp >= 150 || mag == 0 {
        return b;
    }
    if exp < 127 {
        return if neg {
            0xbf80_0000
        } else {
            0
        };
    }
    proof {
        lemma2_to64();
        if 150 - exp < 23 {
            lemma_pow2_strictly_increases((150 - exp) as nat, 23);
        }
    }
    let unit: u32 = power_of_two(150 - exp) as u32;
    let over: u32 = mag % unit;
    if over == 0 {
        b
    } else if neg {
        b - over + unit
    } else {
        b - over
    }
}

} // verus!
