//! Integer arithmetic shared by the planners.

use crate::host_ops::arith::{magnitude, quotient};
use crate::shape::product;
use vstd::prelude::*;

verus! {

/// Whether `v` is a 64-bit integer.
pub open spec fn in_range(v: int) -> bool {
    i64::MIN <= v <= i64::MAX
}

// --- products ---------------------------------------------------------------------------

/// Whether no product of leading dimensions leaves the range of 64-bit integers.
pub open spec fn product_fits(shape: Seq<i64>) -> bool
    decreases shape.len(),
{
    if shape.len() == 0 {
        true
    } else {
        product_fits(shape.drop_last()) && in_range(product(shape))
    }
}

proof fn lemma_product_fits(shape: Seq<i64>, k: int)
    requires
        0 <= k <= shape.len(),
        product_fits(shape),
    ensures
        product_fits(shape.take(k)),
    decreases shape.len(),
{
    if k < shape.len() {
        assert(shape.drop_last().take(k) =~= shape.take(k));
        lemma_product_fits(shape.drop_last(), k);
    } else {
        assert(shape.take(k) =~= shape);
    }
}

/// The product of the dimensions, where it can be formed.
pub fn checked_product(shape: &[i64]) -> (r: Option<i64>)
    ensures
        match r {
            Some(p) => product_fits(shape@) && p == product(shape@),
            None => !product_fits(shape@),
        },
{
    let mut p: i64 = 1;
    let n: usize = shape.len();
    let mut i: usize = 0;
    assert(shape@.take(0) =~= Seq::empty());
    while i < n
        invariant
            i <= n,
            n == shape@.len(),
            product_fits(shape@.take(i as int)),
            p == product(shape@.take(i as int)),
        decreases n - i,
    {
        proof {
            assert(shape@.take(i + 1).drop_last() =~= shape@.take(i as int));
            if product_fits(shape@) {
                lemma_product_fits(shape@, i + 1);
            }
        }
        match p.checked_mul(shape[i]) {
            Some(q) => {
                p = q;
            },
            None => {
                return None;
            },
        }
        i += 1;
    }
    assert(shape@.take(n as int) =~= shape@);
    Some(p)
}

/// The number of elements that a shape stands for, a negative product counting as zero;
/// nothing where the product of the dimensions cannot be formed.
pub open spec fn volume_of(shape: Seq<i64>) -> Option<int> {
    if !product_fits(shape) || product(shape) > usize::MAX {
        None
    } else if product(shape) < 0 {
        Some(0)
    } else {
        Some(product(shape))
    }
}

/// The number of elements that a shape stands for.
pub fn volume(shape: &[i64]) -> (r: Option<usize>)
    ensures
        match r {
            Some(n) => volume_of(shape@) == Some(n as int),
            None => volume_of(shape@) is None,
        },
{
    match checked_product(shape) {
        Some(p) => if p < 0 {
            Some(0)
        } else if p as u64 > usize::MAX as u64 {
            None
        } else {
            Some(p as usize)
        },
        None => None,
    }
}

// --- words ------------------------------------------------------------------------------

/// The low 32 bits.
pub open spec fn w32(x: int) -> u32 {
    x as u32
}

pub fn word(x: i64) -> (r: u32)
    ensures
        r == w32(x as int),
{
    #[verifier::truncate]
    (x as u32)
}

pub fn size_word(x: usize) -> (r: u32)
    ensures
        r == w32(x as int),
{
    #[verifier::truncate]
    (x as u32)
}

/// 1 for true and 0 for false.
pub open spec fn flag_of(b: bool) -> u32 {
    if b {
        1
    } else {
        0
    }
}

pub fn flag(b: bool) -> (r: u32)
    ensures
        r == flag_of(b),
{
    if b {
        1
    } else {
        0
    }
}

// --- quotients --------------------------------------------------------------------------

/// The quotient rounded up.
pub open spec fn ceil_div(a: int, b: int) -> int {
    (a + b - 1) / b
}

/// How many groups of `size` cover `n`.
pub fn groups(n: u32, size: u32) -> (r: u32)
    requires
        size > 0,
    ensures
        r == ceil_div(n as int, size as int),
        r <= n,
{
    let q: u32 = n / size;
    let m: u32 = n % size;
    proof {
        let (a, b, q, m) = (n as int, size as int, q as int, m as int);
        vstd::arithmetic::div_mod::lemma_fundamental_div_mod(a, b);
        if m == 0 {
            assert(a + b - 1 == q * b + (b - 1)) by (nonlinear_arith)
                requires
                    a == b * q + m,
                    m == 0,
            ;
            vstd::arithmetic::div_mod::lemma_fundamental_div_mod_converse(a + b - 1, b, q, b - 1);
        } else {
            assert(a + b - 1 == (q + 1) * b + (m - 1)) by (nonlinear_arith)
                requires
                    a == b * q + m,
            ;
            vstd::arithmetic::div_mod::lemma_fundamental_div_mod_converse(
                a + b - 1,
                b,
                q + 1,
                m - 1,
            );
        }
        assert(q <= a) by (nonlinear_arith)
            requires
                a == b * q + m,
                0 <= m,
                b >= 1,
                q >= 0,
        ;
        if m != 0 {
            assert(q + 1 <= a) by (nonlinear_arith)
                requires
                    a == b * q + m,
                    0 < m,
                    b >= 1,
                    q >= 0,
            ;
        }
    }
    if m == 0 {
        q
    } else {
        q + 1
    }
}

/// `x / y`, rounded towards zero.
pub fn divide_wide(x: i128, y: i64) -> (r: i128)
    requires
        y != 0,
        -0x7fff_ffff_ffff_ffff_ffff_ffff_ffff_ffff <= x,
    ensures
        r == quotient(x as int, y as int),
        magnitude(r as int) <= magnitude(x as int),
{
    let a: i128 = if x < 0 {
        -x
    } else {
        x
    };
    let b: i128 = if y < 0 {
        -(y as i128)
    } else {
        y as i128
    };
    let q: u128 = (a as u128) / (b as u128);
    proof {
        let (ai, bi) = (a as int, b as int);
        assert(0 <= ai / bi <= ai) by (nonlinear_arith)
            requires
                ai >= 0,
                bi >= 1,
        ;
    }
    if (x < 0) == (y < 0) {
        q as i128
    } else {
        -(q as i128)
    }
}

/// `x` as a 64-bit integer, where it is one.
pub fn narrowed(x: i128) -> (r: Option<i64>)
    ensures
        match r {
            Some(v) => v == x,
            None => !in_range(x as int),
        },
{
    if -0x8000_0000_0000_0000 <= x && x <= 0x7fff_ffff_ffff_ffff {
        Some(x as i64)
    } else {
        None
    }
}

} // verus!
