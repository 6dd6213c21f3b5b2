//! Tensor shapes: element counts, positions and broadcasting.

use crate::error::{invalid_shape, Kind, Result};
use vstd::arithmetic::div_mod::{lemma_basic_div, lemma_fundamental_div_mod, lemma_mod_breakdown};
use vstd::prelude::*;

verus! {

// --- counting ---------------------------------------------------------------------------

/// The product of all dimensions.
pub open spec fn product(shape: Seq<i64>) -> int
    decreases shape.len(),
{
    if shape.len() == 0 {
        1
    } else {
        product(shape.drop_last()) * shape.last()
    }
}

/// The number of elements of a tensor of this shape: the product of the dimensions, where
/// none is negative and no product of leading dimensions exceeds what can be addressed.
pub open spec fn count_of(shape: Seq<i64>) -> Option<int>
    decreases shape.len(),
{
    if shape.len() == 0 {
        Some(1)
    } else {
        match count_of(shape.drop_last()) {
            Some(n) if shape.last() >= 0 && n * shape.last() <= usize::MAX => Some(
                n * shape.last(),
            ),
            _ => None,
        }
    }
}

pub proof fn lemma_count(shape: Seq<i64>)
    ensures
        count_of(shape) matches Some(n) ==> n == product(shape) && 0 <= n <= usize::MAX && forall|
            k: int,
        |
            0 <= k < shape.len() ==> #[trigger] shape[k] >= 0,
    decreases shape.len(),
{
    if shape.len() > 0 {
        lemma_count(shape.drop_last());
        if let Some(n) = count_of(shape.drop_last()) {
            let d = shape.last() as int;
            assert(d >= 0 ==> n * d >= 0) by (nonlinear_arith)
                requires
                    n >= 0,
            ;
            if count_of(shape) is Some {
                assert forall|k: int| 0 <= k < shape.len() implies #[trigger] shape[k] >= 0 by {
                    if k < shape.len() - 1 {
                        assert(shape[k] == shape.drop_last()[k]);
                    }
                }
            }
        }
    }
}

proof fn lemma_count_prefix(shape: Seq<i64>, k: int)
    requires
        0 <= k <= shape.len(),
        count_of(shape) is Some,
    ensures
        count_of(shape.take(k)) is Some,
    decreases shape.len(),
{
    if k < shape.len() {
        assert(shape.drop_last().take(k) =~= shape.take(k));
        lemma_count_prefix(shape.drop_last(), k);
    } else {
        assert(shape.take(k) =~= shape);
    }
}

/// The number of elements of a tensor of this shape.
pub fn element_count(shape: &[i64]) -> (r: Result<usize>)
    ensures
        match r {
            Ok(n) => count_of(shape@) == Some(n as int),
            Err(e) => count_of(shape@) is None && e.kind() == Kind::Shape,
        },
{
    let mut n: usize = 1;
    let len: usize = shape.len();
    let mut i: usize = 0;
    assert(shape@.take(0) =~= Seq::empty());
    while i < len
        invariant
            len == shape@.len(),
            i <= len,
            count_of(shape@.take(i as int)) == Some(n as int),
        decreases len - i,
    {
        let d: i64 = shape[i];
        proof {
            assert(shape@.take(i + 1).drop_last() =~= shape@.take(i as int));
            if count_of(shape@) is Some {
                lemma_count_prefix(shape@, i + 1);
            }
        }
        if d < 0 {
            return Err(invalid_shape("negative dimension"));
        }
        let next = if d as u64 > usize::MAX as u64 {
            if n == 0 {
                Some(0)
            } else {
                assert(n * d > usize::MAX) by (nonlinear_arith)
                    requires
                        n >= 1,
                        d > usize::MAX,
                ;
                None
            }
        } else {
            n.checked_mul(d as usize)
        };
        match next {
            Some(m) => {
                assert(m == n * d) by (nonlinear_arith)
                    requires
                        m == n * d || (n == 0 && m == 0),
                ;
                n = m;
            },
            None => {
                return Err(invalid_shape("element count overflow"));
            },
        }
        i += 1;
    }
    assert(shape@.take(len as int) =~= shape@);
    Ok(n)
}

// --- positions --------------------------------------------------------------------------

/// The product of the dimensions from `d` on.
pub open spec fn suffix(shape: Seq<i64>, d: int) -> int
    decreases shape.len() - d,
{
    if d >= shape.len() {
        1
    } else {
        shape[d] * suffix(shape, d + 1)
    }
}

/// The coordinate along dimension `d` of the element at place `o`, in row-major order.
pub open spec fn coord(shape: Seq<i64>, o: int, d: int) -> int {
    o / suffix(shape, d + 1) % (shape[d] as int)
}

/// The sum of `f(k) * w(k)` for `k` below `n`.
pub open spec fn weighted(f: spec_fn(int) -> int, w: spec_fn(int) -> int, n: int) -> int
    decreases n,
{
    if n <= 0 {
        0
    } else {
        weighted(f, w, n - 1) + f(n - 1) * w(n - 1)
    }
}

/// The place of the element with coordinates `x`, in row-major order.
pub open spec fn place(shape: Seq<i64>, x: spec_fn(int) -> int) -> int {
    weighted(x, |k: int| suffix(shape, k + 1), shape.len() as int)
}

/// Whether all dimensions are positive.
pub open spec fn positive(shape: Seq<i64>) -> bool {
    forall|k: int| 0 <= k < shape.len() ==> #[trigger] shape[k] > 0
}

pub proof fn lemma_suffix_positive(shape: Seq<i64>, d: int)
    requires
        positive(shape),
        0 <= d,
    ensures
        suffix(shape, d) >= 1,
    decreases shape.len() - d,
{
    if d < shape.len() {
        lemma_suffix_positive(shape, d + 1);
        let a = shape[d] as int;
        let b = suffix(shape, d + 1);
        assert(a * b >= 1) by (nonlinear_arith)
            requires
                a >= 1,
                b >= 1,
        ;
    }
}

/// Leading and trailing dimensions multiply to the whole.
pub proof fn lemma_split_product(shape: Seq<i64>, d: int)
    requires
        0 <= d <= shape.len(),
    ensures
        product(shape.take(d)) * suffix(shape, d) == product(shape),
    decreases shape.len() - d,
{
    if d == shape.len() {
        assert(shape.take(d) =~= shape);
    } else {
        lemma_split_product(shape, d + 1);
        assert(shape.take(d + 1).drop_last() =~= shape.take(d));
        let a = product(shape.take(d));
        let b = shape[d] as int;
        let c = suffix(shape, d + 1);
        assert((a * b) * c == a * (b * c)) by (nonlinear_arith);
    }
}

pub proof fn lemma_whole(shape: Seq<i64>)
    ensures
        suffix(shape, 0) == product(shape),
{
    lemma_split_product(shape, 0);
    assert(shape.take(0) =~= Seq::empty());
}

/// A tensor with elements has no empty dimension.
pub proof fn lemma_nonempty(shape: Seq<i64>)
    requires
        count_of(shape) matches Some(n) && n > 0,
    ensures
        positive(shape),
        product(shape) > 0,
        suffix(shape, 0) == product(shape),
    decreases shape.len(),
{
    lemma_count(shape);
    lemma_whole(shape);
    if shape.len() > 0 {
        let n = count_of(shape.drop_last())->0;
        let d = shape.last() as int;
        lemma_count(shape.drop_last());
        assert(n > 0 && d > 0) by (nonlinear_arith)
            requires
                n >= 0,
                d >= 0,
                n * d > 0,
        ;
        lemma_nonempty(shape.drop_last());
        assert forall|k: int| 0 <= k < shape.len() implies #[trigger] shape[k] > 0 by {
            if k < shape.len() - 1 {
                assert(shape[k] == shape.drop_last()[k]);
            }
        }
    }
}

/// Trailing products never exceed the whole.
pub proof fn lemma_suffix_bound(shape: Seq<i64>, d: int)
    requires
        positive(shape),
        0 <= d <= shape.len(),
    ensures
        1 <= suffix(shape, d) <= suffix(shape, 0),
    decreases d,
{
    lemma_suffix_positive(shape, d);
    if d > 0 {
        lemma_suffix_bound(shape, d - 1);
        let a = shape[d - 1] as int;
        let b = suffix(shape, d);
        assert(b <= a * b) by (nonlinear_arith)
            requires
                a >= 1,
                b >= 1,
        ;
    }
}

pub proof fn lemma_coord_bound(shape: Seq<i64>, o: int, d: int)
    requires
        positive(shape),
        0 <= d < shape.len(),
    ensures
        0 <= coord(shape, o, d) < shape[d],
{
}

/// Coordinates that lie within the shape give a place within the tensor.
pub proof fn lemma_place_bound(shape: Seq<i64>, x: spec_fn(int) -> int, d: int)
    requires
        positive(shape),
        0 <= d <= shape.len(),
        forall|k: int| 0 <= k < shape.len() ==> 0 <= #[trigger] x(k) < shape[k],
    ensures
        0 <= weighted(x, |k: int| suffix(shape, k + 1), d),
        weighted(x, |k: int| suffix(shape, k + 1), d) + suffix(shape, d) <= suffix(shape, 0),
    decreases d,
{
    if d > 0 {
        lemma_place_bound(shape, x, d - 1);
        lemma_suffix_positive(shape, d);
        let c = x(d - 1);
        let s = suffix(shape, d);
        let a = shape[d - 1] as int;
        assert(0 <= c * s && c * s + s <= a * s) by (nonlinear_arith)
            requires
                0 <= c < a,
                s >= 1,
        ;
    }
}

/// The sum over coordinates grows with each dimension.
pub proof fn lemma_weighted_grows(f: spec_fn(int) -> int, w: spec_fn(int) -> int, a: int, b: int)
    requires
        0 <= a <= b,
        forall|k: int| 0 <= k < b ==> 0 <= #[trigger] f(k),
        forall|k: int| 0 <= k < b ==> 0 <= #[trigger] w(k),
    ensures
        0 <= weighted(f, w, a) <= weighted(f, w, b),
    decreases b,
{
    if a < b {
        lemma_weighted_grows(f, w, a, b - 1);
        let x = f(b - 1);
        let y = w(b - 1);
        assert(x * y >= 0) by (nonlinear_arith)
            requires
                x >= 0,
                y >= 0,
        ;
    } else if b > 0 {
        lemma_weighted_grows(f, w, b - 1, b - 1);
        let x = f(b - 1);
        let y = w(b - 1);
        assert(x * y >= 0) by (nonlinear_arith)
            requires
                x >= 0,
                y >= 0,
        ;
    }
}

/// The sum depends only on the values of its terms.
pub proof fn lemma_weighted_same(
    f: spec_fn(int) -> int,
    w: spec_fn(int) -> int,
    g: spec_fn(int) -> int,
    v: spec_fn(int) -> int,
    n: int,
)
    requires
        forall|k: int| 0 <= k < n ==> (#[trigger] f(k)) * w(k) == g(k) * v(k),
    ensures
        weighted(f, w, n) == weighted(g, v, n),
    decreases n,
{
    if n > 0 {
        lemma_weighted_same(f, w, g, v, n - 1);
        assert(f(n - 1) * w(n - 1) == g(n - 1) * v(n - 1));
    }
}

/// Taking the coordinates of a place one by one leaves what the rest accounts for.
pub proof fn lemma_peel(shape: Seq<i64>, o: int, d: int)
    requires
        positive(shape),
        0 <= d < shape.len(),
        0 <= o,
    ensures
        o % suffix(shape, d) / suffix(shape, d + 1) == coord(shape, o, d),
        o % suffix(shape, d) % suffix(shape, d + 1) == o % suffix(shape, d + 1),
        o % suffix(shape, d) == coord(shape, o, d) * suffix(shape, d + 1) + o % suffix(
            shape,
            d + 1,
        ),
{
    let s = suffix(shape, d + 1);
    let a = shape[d] as int;
    lemma_suffix_positive(shape, d + 1);
    lemma_mod_breakdown(o, s, a);
    assert(s * a == a * s) by (nonlinear_arith);
    let c = o / s % a;
    let r = o % s;
    let t = o % suffix(shape, d);
    assert(t == s * c + r);
    assert(t / s == c && t % s == r && t == c * s + r) by (nonlinear_arith)
        requires
            t == s * c + r,
            0 <= r < s,
    ;
}

/// The coordinates of a place lead back to it.
pub proof fn lemma_place_of_coords(shape: Seq<i64>, o: int, d: int)
    requires
        positive(shape),
        0 <= o < suffix(shape, 0),
        0 <= d <= shape.len(),
    ensures
        weighted(|k: int| coord(shape, o, k), |k: int| suffix(shape, k + 1), d) + o % suffix(
            shape,
            d,
        ) == o,
    decreases d,
{
    let f = |k: int| coord(shape, o, k);
    let w = |k: int| suffix(shape, k + 1);
    if d == 0 {
        vstd::arithmetic::div_mod::lemma_small_mod(o as nat, suffix(shape, 0) as nat);
    } else {
        lemma_place_of_coords(shape, o, d - 1);
        lemma_peel(shape, o, d - 1);
        assert(weighted(f, w, d) == weighted(f, w, d - 1) + f(d - 1) * w(d - 1));
    }
}

/// Splitting a tensor into rows along its dimensions and putting them together again is the
/// identity on places.
pub proof fn law_place_of_coords(shape: Seq<i64>, o: int)
    requires
        positive(shape),
        0 <= o < suffix(shape, 0),
    ensures
        place(shape, |k: int| coord(shape, o, k)) == o,
{
    lemma_place_of_coords(shape, o, shape.len() as int);
}

/// The trailing products of a shape without empty dimensions.
pub fn strides_of(shape: &[i64]) -> (r: Vec<usize>)
    requires
        positive(shape@),
        suffix(shape@, 0) <= usize::MAX,
    ensures
        r@.len() == shape@.len(),
        forall|k: int| 0 <= k < r@.len() ==> #[trigger] r@[k] == suffix(shape@, k + 1),
        forall|k: int| 0 <= k < r@.len() ==> #[trigger] r@[k] >= 1,
{
    let n: usize = shape.len();
    let mut r: Vec<usize> = vec![1usize; n];
    let mut acc: usize = 1;
    let mut d: usize = n;
    while d > 0
        invariant
            n == shape@.len(),
            n == r@.len(),
            d <= n,
            positive(shape@),
            suffix(shape@, 0) <= usize::MAX,
            acc == suffix(shape@, d as int),
            forall|k: int| d <= k < n ==> #[trigger] r@[k] == suffix(shape@, k + 1),
        decreases d,
    {
        d -= 1;
        r.set(d, acc);
        proof {
            lemma_suffix_bound(shape@, d as int);
            lemma_suffix_bound(shape@, d + 1);
            let a = shape@[d as int] as int;
            let b = acc as int;
            assert(b * a == a * b) by (nonlinear_arith);
            assert(a <= a * b) by (nonlinear_arith)
                requires
                    a >= 1,
                    b >= 1,
            ;
        }
        acc = acc * (shape[d] as usize);
    }
    assert forall|k: int| 0 <= k < r@.len() implies #[trigger] r@[k] >= 1 by {
        lemma_suffix_bound(shape@, k + 1);
    }
    r
}

// --- broadcasting -----------------------------------------------------------------------

/// Dimension `k` of `s` when aligned at the right with a shape of rank `r`.
pub open spec fn dim_at(s: Seq<i64>, r: int, k: int) -> i64 {
    if k < r - s.len() {
        1
    } else {
        s[k - (r - s.len())]
    }
}

/// The dimension that two dimensions broadcast to.
pub open spec fn joint_dim(a: i64, b: i64) -> i64 {
    if a == 1 {
        b
    } else {
        a
    }
}

pub open spec fn joint_rank(a: Seq<i64>, b: Seq<i64>) -> int {
    if a.len() >= b.len() {
        a.len() as int
    } else {
        b.len() as int
    }
}

/// The shape that two shapes broadcast to.
pub open spec fn joint_shape(a: Seq<i64>, b: Seq<i64>) -> Seq<i64> {
    let r = joint_rank(a, b);
    Seq::new(r as nat, |k: int| joint_dim(dim_at(a, r, k), dim_at(b, r, k)))
}

/// The product of the dimensions from `d` on, empty ones counted as one.
pub open spec fn unit_suffix(shape: Seq<i64>, d: int) -> int
    decreases shape.len() - d,
{
    if d >= shape.len() {
        1
    } else {
        (if shape[d] > 1 {
            shape[d] as int
        } else {
            1
        }) * unit_suffix(shape, d + 1)
    }
}

/// Whether two shapes broadcast: no dimension is negative, aligned dimensions agree or one
/// of them is 1, and the result has no more elements than 32 bits can index.
pub open spec fn joins(a: Seq<i64>, b: Seq<i64>) -> bool {
    let r = joint_rank(a, b);
    &&& forall|k: int| 0 <= k < a.len() ==> 0 <= #[trigger] a[k]
    &&& forall|k: int| 0 <= k < b.len() ==> 0 <= #[trigger] b[k]
    &&& forall|k: int| 0 <= k < r ==> #[trigger] dims_agree(a, b, r, k)
    &&& unit_suffix(joint_shape(a, b), 0) <= u32::MAX
}

pub open spec fn dims_agree(a: Seq<i64>, b: Seq<i64>, r: int, k: int) -> bool {
    dim_at(a, r, k) == dim_at(b, r, k) || dim_at(a, r, k) == 1 || dim_at(b, r, k) == 1
}

/// How far apart in `shape` two elements lie that are neighbours along dimension `k` of a
/// result of rank `r`: nothing where the shape has one element there.
pub open spec fn joint_stride(shape: Seq<i64>, r: int, k: int) -> int {
    let d = k - (r - shape.len());
    if d < 0 || shape[d] == 1 {
        0
    } else {
        unit_suffix(shape, d + 1)
    }
}

/// The place in a tensor of `shape` of the element that stands at place `o` of the result.
pub open spec fn source(shape: Seq<i64>, out: Seq<i64>, o: int) -> int {
    weighted(
        |k: int| coord(out, o, k),
        |k: int| joint_stride(shape, out.len() as int, k),
        out.len() as int,
    )
}

/// Whether `shape` broadcasts to `out`.
pub open spec fn fits_into(shape: Seq<i64>, out: Seq<i64>) -> bool {
    &&& shape.len() <= out.len()
    &&& forall|k: int|
        0 <= k < shape.len() ==> #[trigger] shape[k] == 1 || shape[k] == out[k + (out.len()
            - shape.len())]
}

/// How two shapes broadcast: the shape of the result, its row-major strides, and for each
/// operand the strides along the result's dimensions.
pub struct Broadcast {
    pub out_shape: Vec<i64>,
    pub out_strides: Vec<u32>,
    pub a_strides: Vec<u32>,
    pub b_strides: Vec<u32>,
}

pub proof fn lemma_unit_suffix(shape: Seq<i64>, d: int)
    requires
        0 <= d <= shape.len(),
    ensures
        1 <= unit_suffix(shape, d) <= unit_suffix(shape, 0),
        positive(shape) ==> unit_suffix(shape, d) == suffix(shape, d),
    decreases d,
{
    lemma_unit_suffix_up(shape, d);
    if d > 0 {
        lemma_unit_suffix(shape, d - 1);
        lemma_unit_suffix_up(shape, d - 1);
        let a = if shape[d - 1] > 1 {
            shape[d - 1] as int
        } else {
            1
        };
        let b = unit_suffix(shape, d);
        assert(b <= a * b) by (nonlinear_arith)
            requires
                a >= 1,
                b >= 1,
        ;
    }
}

proof fn lemma_unit_suffix_up(shape: Seq<i64>, d: int)
    requires
        0 <= d,
    ensures
        1 <= unit_suffix(shape, d),
        positive(shape) ==> unit_suffix(shape, d) == suffix(shape, d),
    decreases shape.len() - d,
{
    if d < shape.len() {
        lemma_unit_suffix_up(shape, d + 1);
        let a = if shape[d] > 1 {
            shape[d] as int
        } else {
            1
        };
        let b = unit_suffix(shape, d + 1);
        assert(a * b >= 1) by (nonlinear_arith)
            requires
                a >= 1,
                b >= 1,
        ;
    }
}

/// What broadcasts to a shape has no larger trailing products.
pub proof fn lemma_unit_suffix_fits(shape: Seq<i64>, out: Seq<i64>, d: int)
    requires
        fits_into(shape, out),
        0 <= d <= shape.len(),
    ensures
        1 <= unit_suffix(shape, d) <= unit_suffix(out, d + (out.len() - shape.len())),
    decreases shape.len() - d,
{
    let e = out.len() - shape.len();
    if d < shape.len() {
        lemma_unit_suffix_fits(shape, out, d + 1);
        let a = if shape[d] > 1 {
            shape[d] as int
        } else {
            1
        };
        let c = if out[d + e] > 1 {
            out[d + e] as int
        } else {
            1
        };
        let b = unit_suffix(shape, d + 1);
        let f = unit_suffix(out, d + e + 1);
        assert(1 <= a * b && a * b <= c * f) by (nonlinear_arith)
            requires
                1 <= a <= c,
                1 <= b <= f,
        ;
    }
}

/// Both operands broadcast to the joint shape.
pub proof fn lemma_joint_fits(a: Seq<i64>, b: Seq<i64>)
    requires
        joins(a, b),
    ensures
        fits_into(a, joint_shape(a, b)),
        fits_into(b, joint_shape(a, b)),
        forall|k: int| 0 <= k < joint_shape(a, b).len() ==> #[trigger] joint_shape(a, b)[k] >= 0,
{
    let r = joint_rank(a, b);
    let out = joint_shape(a, b);
    assert forall|k: int| 0 <= k < a.len() implies #[trigger] a[k] == 1 || a[k] == out[k + (
    out.len() - a.len())] by {
        let j = k + (r - a.len());
        assert(dims_agree(a, b, r, j));
    }
    assert forall|k: int| 0 <= k < b.len() implies #[trigger] b[k] == 1 || b[k] == out[k + (
    out.len() - b.len())] by {
        let j = k + (r - b.len());
        assert(dims_agree(a, b, r, j));
    }
    assert forall|k: int| 0 <= k < out.len() implies #[trigger] out[k] >= 0 by {
        assert(dims_agree(a, b, r, k));
    }
}

/// An element of the result comes from an element of the operand.
pub proof fn lemma_source_bound(shape: Seq<i64>, out: Seq<i64>, o: int, d: int)
    requires
        fits_into(shape, out),
        positive(out),
        forall|k: int| 0 <= k < shape.len() ==> #[trigger] shape[k] >= 1,
        0 <= o,
        0 <= d <= out.len(),
    ensures
        ({
            let f = |k: int| coord(out, o, k);
            let w = |k: int| joint_stride(shape, out.len() as int, k);
            let e = out.len() - shape.len();
            let at = if d >= e {
                d - e
            } else {
                0
            };
            0 <= weighted(f, w, d) && weighted(f, w, d) + suffix(shape, at) <= suffix(shape, 0)
        }),
    decreases d,
{
    let f = |k: int| coord(out, o, k);
    let w = |k: int| joint_stride(shape, out.len() as int, k);
    let e = out.len() - shape.len();
    if d > 0 {
        lemma_source_bound(shape, out, o, d - 1);
        let c = f(d - 1);
        lemma_coord_bound(out, o, d - 1);
        let at = d - 1 - e;
        assert(weighted(f, w, d) == weighted(f, w, d - 1) + c * w(d - 1));
        if at < 0 {
            assert(w(d - 1) == 0);
        } else {
            lemma_unit_suffix(shape, at + 1);
            lemma_suffix_positive(shape, at + 1);
            let s = suffix(shape, at + 1);
            let a = shape[at] as int;
            assert(suffix(shape, at) == a * s);
            if a == 1 {
                assert(w(d - 1) == 0);
                assert(a * s == s) by (nonlinear_arith)
                    requires
                        a == 1,
                ;
            } else {
                assert(w(d - 1) == s);
                assert(0 <= c * s && c * s + s <= a * s) by (nonlinear_arith)
                    requires
                        0 <= c < a,
                        s >= 1,
                ;
            }
        }
    }
}

/// The strides of an operand along the dimensions of the result.
fn operand_strides(shape: &[i64], out: &Vec<i64>) -> (r: Vec<u32>)
    requires
        fits_into(shape@, out@),
        unit_suffix(out@, 0) <= u32::MAX,
        forall|k: int| 0 <= k < shape@.len() ==> 0 <= #[trigger] shape@[k],
    ensures
        r@.len() == out@.len(),
        forall|k: int|
            0 <= k < r@.len() ==> #[trigger] r@[k] == joint_stride(shape@, out@.len() as int, k),
{
    let n: usize = out.len();
    let m: usize = shape.len();
    let mut r: Vec<u32> = vec![0u32; n];
    let mut acc: u32 = 1;
    let mut d: usize = m;
    while d > 0
        invariant
            n == out@.len(),
            m == shape@.len(),
            m <= n,
            n == r@.len(),
            d <= m,
            fits_into(shape@, out@),
            unit_suffix(out@, 0) <= u32::MAX,
            forall|k: int| 0 <= k < shape@.len() ==> 0 <= #[trigger] shape@[k],
            acc == unit_suffix(shape@, d as int),
            forall|k: int| 0 <= k < d + (n - m) ==> #[trigger] r@[k] == 0,
            forall|k: int|
                d + (n - m) <= k < n ==> #[trigger] r@[k] == joint_stride(shape@, n as int, k),
        decreases d,
    {
        d -= 1;
        let dim: i64 = shape[d];
        if dim != 1 {
            r.set(d + (n - m), acc);
        }
        proof {
            lemma_unit_suffix_fits(shape@, out@, d as int);
            lemma_unit_suffix(out@, d + (n - m));
            lemma_unit_suffix(shape@, d + 1);
            let a = dim as int;
            let b = acc as int;
            assert(a * b == b * a) by (nonlinear_arith);
            assert(a > 1 ==> a <= a * b) by (nonlinear_arith)
                requires
                    b >= 1,
            ;
            assert(unit_suffix(shape@, d as int) == (if a > 1 {
                a
            } else {
                1
            }) * b);
        }
        if dim > 1 {
            acc = acc * (dim as u32);
        }
    }
    assert forall|k: int| 0 <= k < r@.len() implies #[trigger] r@[k] == joint_stride(
        shape@,
        out@.len() as int,
        k,
    ) by {}
    r
}

/// The row-major strides of the result, empty dimensions counted as one.
fn result_strides(out: &Vec<i64>) -> (r: Option<Vec<u32>>)
    ensures
        match r {
            Some(s) => unit_suffix(out@, 0) <= u32::MAX && s@.len() == out@.len() && forall|k: int|
                0 <= k < s@.len() ==> #[trigger] s@[k] == unit_suffix(out@, k + 1),
            None => unit_suffix(out@, 0) > u32::MAX,
        },
{
    let n: usize = out.len();
    let mut r: Vec<u32> = vec![1u32; n];
    let mut acc: u32 = 1;
    let mut d: usize = n;
    while d > 0
        invariant
            n == out@.len(),
            n == r@.len(),
            d <= n,
            acc == unit_suffix(out@, d as int),
            forall|k: int| d <= k < n ==> #[trigger] r@[k] == unit_suffix(out@, k + 1),
        decreases d,
    {
        d -= 1;
        r.set(d, acc);
        let dim: i64 = out[d];
        if dim > 1 {
            let ghost b = acc as int;
            proof {
                lemma_unit_suffix(out@, d as int);
                lemma_unit_suffix(out@, d + 1);
                assert(dim * b == b * dim) by (nonlinear_arith);
                assert(dim <= dim * b) by (nonlinear_arith)
                    requires
                        dim > 1,
                        b >= 1,
                ;
            }
            if dim > u32::MAX as i64 {
                return None;
            }
            match acc.checked_mul(dim as u32) {
                Some(m) => {
                    acc = m;
                },
                None => {
                    return None;
                },
            }
        }
    }
    Some(r)
}

/// How two shapes broadcast, by the usual rules: aligned at the right, dimensions agree or
/// one of them is 1.
pub fn broadcast(a: &[i64], b: &[i64]) -> (r: Result<Broadcast>)
    ensures
        match r {
            Ok(bc) => {
                &&& joins(a@, b@)
                &&& bc.out_shape@ == joint_shape(a@, b@)
                &&& bc.out_strides@.len() == bc.out_shape@.len()
                &&& bc.a_strides@.len() == bc.out_shape@.len()
                &&& bc.b_strides@.len() == bc.out_shape@.len()
                &&& forall|k: int|
                    0 <= k < bc.out_shape@.len() ==> #[trigger] bc.out_strides@[k] == unit_suffix(
                        bc.out_shape@,
                        k + 1,
                    )
                &&& forall|k: int|
                    0 <= k < bc.out_shape@.len() ==> #[trigger] bc.a_strides@[k] == joint_stride(
                        a@,
                        bc.out_shape@.len() as int,
                        k,
                    )
                &&& forall|k: int|
                    0 <= k < bc.out_shape@.len() ==> #[trigger] bc.b_strides@[k] == joint_stride(
                        b@,
                        bc.out_shape@.len() as int,
                        k,
                    )
            },
            Err(e) => !joins(a@, b@) && e.kind() == Kind::Shape,
        },
{
    let na: usize = a.len();
    let nb: usize = b.len();
    let n: usize = if na >= nb {
        na
    } else {
        nb
    };
    let mut out_shape: Vec<i64> = Vec::new();
    let mut k: usize = 0;
    while k < n
        invariant
            na == a@.len(),
            nb == b@.len(),
            n == joint_rank(a@, b@),
            k <= n,
            out_shape@.len() == k,
            forall|j: int| 0 <= j < k ==> #[trigger] out_shape@[j] == joint_shape(a@, b@)[j],
            forall|j: int| 0 <= j < k ==> #[trigger] dims_agree(a@, b@, n as int, j),
            forall|j: int| 0 <= j < k - (n - na) ==> 0 <= #[trigger] a@[j],
            forall|j: int| 0 <= j < k - (n - nb) ==> 0 <= #[trigger] b@[j],
        decreases n - k,
    {
        let da: i64 = if k < n - na {
            1
        } else {
            a[k - (n - na)]
        };
        let db: i64 = if k < n - nb {
            1
        } else {
            b[k - (n - nb)]
        };
        assert(da == dim_at(a@, n as int, k as int));
        assert(db == dim_at(b@, n as int, k as int));
        if da < 0 || db < 0 {
            return Err(invalid_shape("negative dimension"));
        }
        if da != db && da != 1 && db != 1 {
            assert(!dims_agree(a@, b@, n as int, k as int));
            return Err(invalid_shape("shapes do not broadcast"));
        }
        out_shape.push(if da == 1 {
            db
        } else {
            da
        });
        k += 1;
    }
    assert(out_shape@ =~= joint_shape(a@, b@));
    match result_strides(&out_shape) {
        None => Err(invalid_shape("shape too large to index")),
        Some(out_strides) => {
            proof {
                lemma_joint_fits(a@, b@);
            }
            let a_strides = operand_strides(a, &out_shape);
            let b_strides = operand_strides(b, &out_shape);
            Ok(Broadcast { out_shape, out_strides, a_strides, b_strides })
        },
    }
}

} // verus!
