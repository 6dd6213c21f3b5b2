//! What permuting the dimensions of a tensor keeps.

use crate::bytes::{element, lemma_picked_element, lemma_picked_len};
use crate::graph::{size_of_code, TensorView};
use crate::host_ops::{elements, fault, lemma_sound_len};
use crate::interp::transpose::{
    lemma_origin, lemma_same_elements, origin, perm_stride, permuted, reach, transposed_of,
};
use crate::shape::{
    coord, count_of, law_place_of_coords, lemma_coord_bound, lemma_count, lemma_nonempty,
    lemma_place_bound, lemma_suffix_positive, lemma_whole, place, positive, product, suffix,
    weighted,
};
use vstd::prelude::*;

verus! {

/// Whether `back` leads every dimension back to where `perm` took it from.
pub open spec fn inverse(perm: Seq<usize>, back: Seq<usize>) -> bool {
    &&& back.len() == perm.len()
    &&& forall|d: int| 0 <= d < perm.len() ==> #[trigger] perm[d] < perm.len()
    &&& forall|d: int| 0 <= d < perm.len() ==> #[trigger] back[d] < perm.len()
    &&& forall|d: int| 0 <= d < perm.len() ==> back[#[trigger] perm[d] as int] == d
    &&& forall|d: int| 0 <= d < perm.len() ==> perm[#[trigger] back[d] as int] == d
}

// --- sums and products over a permutation -----------------------------------------------

/// The sum of `t(perm[d])` over the `d` below `k` with `perm[d]` below `m`.
spec fn part(t: spec_fn(int) -> int, perm: Seq<usize>, k: int, m: int) -> int
    decreases k,
{
    if k <= 0 {
        0
    } else {
        part(t, perm, k - 1, m) + if perm[k - 1] < m {
            t(perm[k - 1] as int)
        } else {
            0
        }
    }
}

/// The sum of `t(d)` over the `d` below `n`.
spec fn total(t: spec_fn(int) -> int, n: int) -> int
    decreases n,
{
    if n <= 0 {
        0
    } else {
        total(t, n - 1) + t(n - 1)
    }
}

proof fn lemma_part_step(t: spec_fn(int) -> int, perm: Seq<usize>, back: Seq<usize>, k: int, m: int)
    requires
        inverse(perm, back),
        0 <= k <= perm.len(),
        0 <= m < perm.len(),
    ensures
        part(t, perm, k, m + 1) == part(t, perm, k, m) + (if back[m] < k {
            t(m)
        } else {
            0
        }),
    decreases k,
{
    if k > 0 {
        lemma_part_step(t, perm, back, k - 1, m);
        assert(perm[back[m] as int] == m);
        assert(back[perm[k - 1] as int] == k - 1);
    }
}

proof fn lemma_part_total(t: spec_fn(int) -> int, perm: Seq<usize>, back: Seq<usize>, m: int)
    requires
        inverse(perm, back),
        0 <= m <= perm.len(),
    ensures
        part(t, perm, perm.len() as int, m) == total(t, m),
    decreases m,
{
    if m == 0 {
        lemma_part_none(t, perm, perm.len() as int);
    } else {
        lemma_part_total(t, perm, back, m - 1);
        lemma_part_step(t, perm, back, perm.len() as int, m - 1);
        assert(back[m - 1] < perm.len());
    }
}

proof fn lemma_part_none(t: spec_fn(int) -> int, perm: Seq<usize>, k: int)
    ensures
        part(t, perm, k, 0) == 0,
    decreases k,
{
    if k > 0 {
        lemma_part_none(t, perm, k - 1);
    }
}

proof fn lemma_part_all(t: spec_fn(int) -> int, perm: Seq<usize>, k: int)
    requires
        0 <= k <= perm.len(),
        forall|d: int| 0 <= d < perm.len() ==> #[trigger] perm[d] < perm.len(),
    ensures
        part(t, perm, k, perm.len() as int) == total(|d: int| t(perm[d] as int), k),
    decreases k,
{
    if k > 0 {
        lemma_part_all(t, perm, k - 1);
        assert(perm[k - 1] < perm.len());
    }
}

/// A sum does not depend on the order of its terms.
proof fn lemma_sum_permuted(t: spec_fn(int) -> int, perm: Seq<usize>, back: Seq<usize>)
    requires
        inverse(perm, back),
    ensures
        total(|d: int| t(perm[d] as int), perm.len() as int) == total(t, perm.len() as int),
{
    lemma_part_all(t, perm, perm.len() as int);
    lemma_part_total(t, perm, back, perm.len() as int);
}

proof fn lemma_total_same(t: spec_fn(int) -> int, u: spec_fn(int) -> int, n: int)
    requires
        forall|d: int| 0 <= d < n ==> #[trigger] t(d) == u(d),
    ensures
        total(t, n) == total(u, n),
    decreases n,
{
    if n > 0 {
        lemma_total_same(t, u, n - 1);
        assert(t(n - 1) == u(n - 1));
    }
}

proof fn lemma_weighted_total(f: spec_fn(int) -> int, w: spec_fn(int) -> int, n: int)
    ensures
        weighted(f, w, n) == total(|d: int| f(d) * w(d), n),
    decreases n,
{
    if n > 0 {
        lemma_weighted_total(f, w, n - 1);
    }
}

/// The product of `shape[perm[d]]` over the `d` below `k` with `perm[d]` below `m`.
spec fn part_product(shape: Seq<i64>, perm: Seq<usize>, k: int, m: int) -> int
    decreases k,
{
    if k <= 0 {
        1
    } else {
        part_product(shape, perm, k - 1, m) * if perm[k - 1] < m {
            shape[perm[k - 1] as int] as int
        } else {
            1
        }
    }
}

proof fn lemma_product_step(shape: Seq<i64>, perm: Seq<usize>, back: Seq<usize>, k: int, m: int)
    requires
        inverse(perm, back),
        0 <= k <= perm.len(),
        0 <= m < perm.len(),
    ensures
        part_product(shape, perm, k, m + 1) == part_product(shape, perm, k, m) * (if back[m] < k {
            shape[m] as int
        } else {
            1
        }),
    decreases k,
{
    if k > 0 {
        lemma_product_step(shape, perm, back, k - 1, m);
        assert(perm[back[m] as int] == m);
        assert(back[perm[k - 1] as int] == k - 1);
        let p = part_product(shape, perm, k - 1, m);
        let x = shape[perm[k - 1] as int] as int;
        let y = shape[m] as int;
        assert((p * y) * x == (p * x) * y) by (nonlinear_arith);
    }
}

proof fn lemma_product_total(shape: Seq<i64>, perm: Seq<usize>, back: Seq<usize>, m: int)
    requires
        inverse(perm, back),
        shape.len() == perm.len(),
        0 <= m <= perm.len(),
    ensures
        part_product(shape, perm, perm.len() as int, m) == product(shape.take(m)),
    decreases m,
{
    if m == 0 {
        lemma_product_none(shape, perm, perm.len() as int);
        assert(shape.take(0) =~= Seq::empty());
    } else {
        lemma_product_total(shape, perm, back, m - 1);
        lemma_product_step(shape, perm, back, perm.len() as int, m - 1);
        assert(back[m - 1] < perm.len());
        assert(shape.take(m).drop_last() =~= shape.take(m - 1));
    }
}

proof fn lemma_product_none(shape: Seq<i64>, perm: Seq<usize>, k: int)
    ensures
        part_product(shape, perm, k, 0) == 1,
    decreases k,
{
    if k > 0 {
        lemma_product_none(shape, perm, k - 1);
    }
}

proof fn lemma_product_all(shape: Seq<i64>, perm: Seq<usize>, k: int)
    requires
        shape.len() == perm.len(),
        0 <= k <= perm.len(),
        forall|d: int| 0 <= d < perm.len() ==> #[trigger] perm[d] < perm.len(),
    ensures
        part_product(shape, perm, k, perm.len() as int) == product(permuted(shape, perm).take(k)),
    decreases k,
{
    let out = permuted(shape, perm);
    if k == 0 {
        assert(out.take(0) =~= Seq::empty());
    } else {
        lemma_product_all(shape, perm, k - 1);
        assert(perm[k - 1] < perm.len());
        assert(out.take(k).drop_last() =~= out.take(k - 1));
    }
}

/// Permuting the dimensions keeps the number of elements.
pub proof fn law_permuted_count(shape: Seq<i64>, perm: Seq<usize>, back: Seq<usize>)
    requires
        inverse(perm, back),
        shape.len() == perm.len(),
    ensures
        product(permuted(shape, perm)) == product(shape),
{
    let n = perm.len() as int;
    lemma_product_all(shape, perm, n);
    lemma_product_total(shape, perm, back, n);
    assert(shape.take(n) =~= shape);
    assert(permuted(shape, perm).take(n) =~= permuted(shape, perm));
}

// --- places -----------------------------------------------------------------------------

/// The coordinates of the last element add up to its place.
proof fn lemma_last_place(shape: Seq<i64>, k: int)
    requires
        0 <= k <= shape.len(),
    ensures
        total(|a: int| (shape[a] - 1) * suffix(shape, a + 1), k) == suffix(shape, 0) - suffix(
            shape,
            k,
        ),
    decreases k,
{
    let t = |a: int| (shape[a] - 1) * suffix(shape, a + 1);
    if k > 0 {
        lemma_last_place(shape, k - 1);
        assert(total(t, k) == total(t, k - 1) + t(k - 1));
        let (x, s) = (shape[k - 1] as int, suffix(shape, k));
        assert((x - 1) * s == x * s - s) by (nonlinear_arith);
    }
}

/// A permutation reaches to the last element.
proof fn lemma_reach(shape: Seq<i64>, perm: Seq<usize>, back: Seq<usize>)
    requires
        inverse(perm, back),
        shape.len() == perm.len(),
    ensures
        reach(shape, perm) == suffix(shape, 0) - 1,
{
    let n = perm.len() as int;
    let g = |d: int| permuted(shape, perm)[d] - 1;
    let w = perm_stride(shape, perm);
    let t = |a: int| (shape[a] - 1) * suffix(shape, a + 1);
    lemma_weighted_total(g, w, n);
    let u = |d: int| g(d) * w(d);
    let v = |d: int| t(perm[d] as int);
    assert forall|d: int| 0 <= d < n implies #[trigger] u(d) == v(d) by {}
    lemma_total_same(u, v, n);
    lemma_sum_permuted(t, perm, back);
    lemma_last_place(shape, n);
}

/// The prefix of a place is a multiple of what lies behind it.
proof fn lemma_prefix(shape: Seq<i64>, x: spec_fn(int) -> int, d: int) -> (q: int)
    requires
        0 <= d <= shape.len(),
    ensures
        weighted(x, |k: int| suffix(shape, k + 1), d) == q * suffix(shape, d),
    decreases d,
{
    let w = |k: int| suffix(shape, k + 1);
    if d == 0 {
        assert(0 * suffix(shape, 0) == 0);
        0
    } else {
        let q = lemma_prefix(shape, x, d - 1);
        let (a, c, s) = (shape[d - 1] as int, x(d - 1), suffix(shape, d));
        assert(weighted(x, w, d) == weighted(x, w, d - 1) + x(d - 1) * w(d - 1));
        assert(q * (a * s) + c * s == (q * a + c) * s) by (nonlinear_arith);
        q * a + c
    }
}

/// The rest of a place is smaller than what one step before it stands for.
proof fn lemma_tail(shape: Seq<i64>, x: spec_fn(int) -> int, d: int, e: int)
    requires
        positive(shape),
        0 <= d <= e <= shape.len(),
        forall|k: int| 0 <= k < shape.len() ==> 0 <= #[trigger] x(k) < shape[k],
    ensures
        0 <= weighted(x, |k: int| suffix(shape, k + 1), e) - weighted(
            x,
            |k: int| suffix(shape, k + 1),
            d,
        ),
        weighted(x, |k: int| suffix(shape, k + 1), e) - weighted(
            x,
            |k: int| suffix(shape, k + 1),
            d,
        ) + suffix(shape, e) <= suffix(shape, d),
    decreases e - d,
{
    let w = |k: int| suffix(shape, k + 1);
    if d < e {
        lemma_tail(shape, x, d, e - 1);
        lemma_suffix_positive(shape, e);
        let (a, c, s) = (shape[e - 1] as int, x(e - 1), suffix(shape, e));
        assert(weighted(x, w, e) == weighted(x, w, e - 1) + x(e - 1) * w(e - 1));
        assert(0 <= c * s && c * s + s <= a * s) by (nonlinear_arith)
            requires
                0 <= c < a,
                s >= 1,
        ;
    }
}

/// The place of coordinates within the shape has these coordinates.
pub proof fn law_coords_of_place(shape: Seq<i64>, x: spec_fn(int) -> int, d: int)
    requires
        positive(shape),
        0 <= d < shape.len(),
        forall|k: int| 0 <= k < shape.len() ==> 0 <= #[trigger] x(k) < shape[k],
    ensures
        coord(shape, place(shape, x), d) == x(d),
{
    let w = |k: int| suffix(shape, k + 1);
    let n = shape.len() as int;
    let q = lemma_prefix(shape, x, d);
    lemma_tail(shape, x, d + 1, n);
    lemma_suffix_positive(shape, d + 1);
    let (a, c, s) = (shape[d] as int, x(d), suffix(shape, d + 1));
    let rest = weighted(x, w, n) - weighted(x, w, d + 1);
    assert(suffix(shape, n) == 1);
    assert(weighted(x, w, d + 1) == weighted(x, w, d) + x(d) * w(d));
    let o = place(shape, x);
    assert(q * (a * s) + c * s == (q * a + c) * s) by (nonlinear_arith);
    assert(o == (q * a + c) * s + rest);
    vstd::arithmetic::div_mod::lemma_fundamental_div_mod_converse(o, s, q * a + c, rest);
    vstd::arithmetic::div_mod::lemma_fundamental_div_mod_converse(q * a + c, a, q, c);
}

/// Going to where an element comes from, and from there back, leads to the same place.
proof fn lemma_round_trip(shape: Seq<i64>, perm: Seq<usize>, back: Seq<usize>, o: int)
    requires
        inverse(perm, back),
        shape.len() == perm.len(),
        positive(shape),
        0 <= o < suffix(shape, 0),
    ensures
        origin(shape, perm, origin(permuted(shape, perm), back, o)) == o,
{
    let n = perm.len() as int;
    let mid = permuted(shape, perm);
    assert(permuted(mid, back) =~= shape) by {
        assert forall|a: int| 0 <= a < n implies permuted(mid, back)[a] == shape[a] by {
            assert(back[a] < n);
            assert(perm[back[a] as int] == a);
        }
    }
    assert(positive(mid)) by {
        assert forall|d: int| 0 <= d < n implies #[trigger] mid[d] > 0 by {
            assert(perm[d] < n);
        }
    }
    // the place in the middle has the coordinates of `o`, permuted
    let x = |d: int| coord(shape, o, perm[d] as int);
    let o2 = origin(mid, back, o);
    let f = |a: int| coord(shape, o, a);
    let w = perm_stride(mid, back);
    let wm = |k: int| suffix(mid, k + 1);
    lemma_weighted_total(f, w, n);
    let t = |a: int| f(a) * w(a);
    assert(o2 == total(t, n));
    lemma_sum_permuted(t, perm, back);
    let u = |d: int| t(perm[d] as int);
    let v = |d: int| x(d) * wm(d);
    assert forall|d: int| 0 <= d < n implies #[trigger] u(d) == v(d) by {
        assert(back[perm[d] as int] == d);
    }
    lemma_total_same(u, v, n);
    lemma_weighted_total(x, wm, n);
    assert(o2 == place(mid, x));
    assert forall|d: int| 0 <= d < n implies 0 <= #[trigger] x(d) < mid[d] by {
        assert(perm[d] < n);
        lemma_coord_bound(shape, o, perm[d] as int);
    }
    // and from there the coordinates lead to `o`
    let g = |d: int| coord(mid, o2, d);
    let ws = perm_stride(shape, perm);
    let s = |a: int| suffix(shape, a + 1);
    lemma_weighted_total(g, ws, n);
    let p = |a: int| f(a) * s(a);
    let y = |d: int| g(d) * ws(d);
    let z = |d: int| p(perm[d] as int);
    assert forall|d: int| 0 <= d < n implies #[trigger] y(d) == z(d) by {
        law_coords_of_place(mid, x, d);
    }
    lemma_total_same(y, z, n);
    lemma_sum_permuted(p, perm, back);
    lemma_weighted_total(f, s, n);
    law_place_of_coords(shape, o);
}

// --- tensors ----------------------------------------------------------------------------

proof fn lemma_counts(shape: Seq<i64>, n: int)
    requires
        positive(shape),
        0 <= n <= shape.len(),
        product(shape) <= usize::MAX,
    ensures
        count_of(shape.take(n)) == Some(product(shape.take(n))),
        1 <= product(shape.take(n)) <= product(shape),
    decreases n,
{
    crate::shape::lemma_split_product(shape, n);
    lemma_suffix_positive(shape, n);
    if n == 0 {
        assert(shape.take(0) =~= Seq::empty());
        assert(1 * suffix(shape, 0) == product(shape));
    } else {
        lemma_counts(shape, n - 1);
        assert(shape.take(n).drop_last() =~= shape.take(n - 1));
        let (p, d, s) = (product(shape.take(n - 1)), shape[n - 1] as int, suffix(shape, n));
        assert(p * d >= 1 && p * d <= (p * d) * s) by (nonlinear_arith)
            requires
                p >= 1,
                d >= 1,
                s >= 1,
        ;
    }
}

/// A permutation of the dimensions of a tensor with elements always succeeds.
pub proof fn law_permutation_succeeds(t: TensorView, perm: Seq<usize>, back: Seq<usize>)
    requires
        fault(t) is None,
        size_of_code(t.dtype) > 0,
        elements(t) > 0,
        t.data.len() <= usize::MAX,
        inverse(perm, back),
        perm.len() == t.shape.len(),
    ensures
        transposed_of(t, perm) matches Some(r) && fault(r) is None && elements(r) == elements(t)
            && r.data.len() == t.data.len(),
{
    let shape = t.shape;
    let out = permuted(shape, perm);
    let n = shape.len() as int;
    let es = size_of_code(t.dtype) as int;
    lemma_sound_len(t);
    lemma_count(shape);
    lemma_nonempty(shape);
    lemma_whole(shape);
    law_permuted_count(shape, perm, back);
    assert(positive(out)) by {
        assert forall|d: int| 0 <= d < n implies #[trigger] out[d] > 0 by {
            assert(perm[d] < n);
        }
    }
    lemma_counts(out, n);
    assert(out.take(n) =~= out);
    lemma_reach(shape, perm, back);
    let f = |o: int| origin(shape, perm, o);
    let count = elements(t);
    assert forall|o: int| 0 <= o < count implies 0 <= #[trigger] f(o) && f(o) * es + es
        <= t.data.len() by {
        lemma_origin(shape, perm, o);
        let s = f(o);
        assert(s * es + es <= count * es) by (nonlinear_arith)
            requires
                0 <= s < count,
                es > 0,
        ;
    }
    lemma_picked_len(t.data, es, count, f);
    let r = transposed_of(t, perm)->Some_0;
    let bits = crate::graph::code_bits(t.dtype)->Some_0 as int;
    assert(bits == 8 * es);
    assert(count * bits == 8 * (count * es)) by (nonlinear_arith)
        requires
            bits == 8 * es,
    ;
}

/// Permuting the dimensions back gives the tensor as it was.
pub proof fn law_transpose_back(t: TensorView, perm: Seq<usize>, back: Seq<usize>)
    requires
        fault(t) is None,
        size_of_code(t.dtype) > 0,
        elements(t) > 0,
        t.data.len() <= usize::MAX,
        inverse(perm, back),
        perm.len() == t.shape.len(),
    ensures
        transposed_of(t, perm) matches Some(r) && transposed_of(r, back) == Some(t),
{
    let shape = t.shape;
    let mid = permuted(shape, perm);
    let n = perm.len() as int;
    let es = size_of_code(t.dtype) as int;
    law_permutation_succeeds(t, perm, back);
    let r = transposed_of(t, perm)->Some_0;
    assert(inverse(back, perm));
    law_permutation_succeeds(r, back, perm);
    let b = transposed_of(r, back)->Some_0;
    assert(permuted(mid, back) =~= shape) by {
        assert forall|a: int| 0 <= a < n implies permuted(mid, back)[a] == shape[a] by {
            assert(back[a] < n);
            assert(perm[back[a] as int] == a);
        }
    }
    lemma_sound_len(t);
    lemma_sound_len(r);
    lemma_count(shape);
    lemma_nonempty(shape);
    lemma_whole(shape);
    lemma_count(mid);
    lemma_nonempty(mid);
    lemma_whole(mid);
    lemma_reach(shape, perm, back);
    lemma_reach(mid, back, perm);
    let count = elements(t);
    let f = |o: int| origin(shape, perm, o);
    let g = |o: int| origin(mid, back, o);
    assert forall|o: int| 0 <= o < count implies 0 <= #[trigger] f(o) && f(o) * es + es
        <= t.data.len() by {
        lemma_origin(shape, perm, o);
        let s = f(o);
        assert(s * es + es <= count * es) by (nonlinear_arith)
            requires
                0 <= s < count,
                es > 0,
        ;
    }
    assert forall|o: int| 0 <= o < count implies 0 <= #[trigger] g(o) && g(o) * es + es
        <= r.data.len() by {
        lemma_origin(mid, back, o);
        let s = g(o);
        assert(s * es + es <= count * es) by (nonlinear_arith)
            requires
                0 <= s < count,
                es > 0,
        ;
    }
    assert forall|o: int| 0 <= o < count implies #[trigger] element(b.data, es, o) == element(
        t.data,
        es,
        o,
    ) by {
        lemma_picked_element(r.data, es, count, g, o);
        lemma_origin(mid, back, o);
        lemma_picked_element(t.data, es, count, f, g(o));
        lemma_round_trip(shape, perm, back, o);
    }
    lemma_same_elements(b.data, t.data, es, count);
}

/// **Dimension `d` of the result is dimension `perm[d]` of the tensor**: coordinates `x` of the
/// tensor, taken in that order, are those of the same element in the result.
pub proof fn law_transposed_place(
    shape: Seq<i64>,
    perm: Seq<usize>,
    back: Seq<usize>,
    x: spec_fn(int) -> int,
)
    requires
        inverse(perm, back),
        shape.len() == perm.len(),
        positive(shape),
        forall|k: int| 0 <= k < shape.len() ==> 0 <= #[trigger] x(k) < shape[k],
    ensures
        permuted(shape, perm).len() == shape.len(),
        forall|d: int|
            0 <= d < perm.len() ==> #[trigger] permuted(shape, perm)[d] == shape[perm[d] as int],
        origin(shape, perm, place(permuted(shape, perm), |d: int| x(perm[d] as int))) == place(
            shape,
            x,
        ),
{
    let n = perm.len() as int;
    let out = permuted(shape, perm);
    let y = |d: int| x(perm[d] as int);
    assert(positive(out)) by {
        assert forall|d: int| 0 <= d < n implies #[trigger] out[d] > 0 by {
            assert(perm[d] < n);
        }
    }
    assert forall|d: int| 0 <= d < n implies 0 <= #[trigger] y(d) < out[d] by {
        assert(perm[d] < n);
        assert(0 <= x(perm[d] as int) < shape[perm[d] as int]);
    }
    let o = place(out, y);
    let g = |d: int| coord(out, o, d);
    let w = perm_stride(shape, perm);
    let s = |a: int| suffix(shape, a + 1);
    let p = |a: int| x(a) * s(a);
    let u = |d: int| g(d) * w(d);
    let z = |d: int| p(perm[d] as int);
    lemma_weighted_total(g, w, n);
    assert forall|d: int| 0 <= d < n implies #[trigger] u(d) == z(d) by {
        law_coords_of_place(out, y, d);
    }
    lemma_total_same(u, z, n);
    lemma_sum_permuted(p, perm, back);
    lemma_weighted_total(x, s, n);
}

/// **A transposed tensor has the elements of the tensor**, each where its coordinates, in the new
/// order, say.
pub proof fn law_transposed_element(
    t: TensorView,
    perm: Seq<usize>,
    back: Seq<usize>,
    r: TensorView,
    x: spec_fn(int) -> int,
)
    requires
        transposed_of(t, perm) == Some(r),
        inverse(perm, back),
        perm.len() == t.shape.len(),
        elements(t) > 0,
        t.data.len() <= usize::MAX,
        forall|k: int| 0 <= k < t.shape.len() ==> 0 <= #[trigger] x(k) < t.shape[k],
    ensures
        r.dtype == t.dtype,
        r.shape == permuted(t.shape, perm),
        element(
            r.data,
            size_of_code(t.dtype) as int,
            place(r.shape, |d: int| x(perm[d] as int)),
        ) == element(t.data, size_of_code(t.dtype) as int, place(t.shape, x)),
{
    let shape = t.shape;
    let out = permuted(shape, perm);
    let es = size_of_code(t.dtype) as int;
    lemma_sound_len(t);
    lemma_count(shape);
    lemma_nonempty(shape);
    law_permutation_succeeds(t, perm, back);
    law_transposed_place(shape, perm, back, x);
    lemma_count(out);
    lemma_whole(shape);
    lemma_whole(out);
    let n = count_of(out)->Some_0;
    assert(n == elements(t));
    assert(positive(out)) by {
        assert forall|d: int| 0 <= d < out.len() implies #[trigger] out[d] > 0 by {
            assert(perm[d] < perm.len());
        }
    }
    let y = |d: int| x(perm[d] as int);
    assert forall|d: int| 0 <= d < out.len() implies 0 <= #[trigger] y(d) < out[d] by {
        assert(perm[d] < perm.len());
        assert(0 <= x(perm[d] as int) < shape[perm[d] as int]);
    }
    lemma_place_bound(out, y, out.len() as int);
    let src = |o: int| origin(shape, perm, o);
    assert forall|o: int| 0 <= o < n implies 0 <= #[trigger] src(o) && src(o) * es + es
        <= t.data.len() by {
        let c = |d: int| coord(out, o, d);
        let v = |a: int| c(back[a] as int);
        assert forall|a: int| 0 <= a < shape.len() implies 0 <= #[trigger] v(a) < shape[a] by {
            assert(back[a] < perm.len());
            lemma_coord_bound(out, o, back[a] as int);
            assert(perm[back[a] as int] == a);
        }
        law_transposed_place(shape, perm, back, v);
        let again = |d: int| v(perm[d] as int);
        assert forall|d: int| 0 <= d < out.len() implies (#[trigger] again(d)) * suffix(out, d + 1)
            == c(d) * suffix(out, d + 1) by {
            assert(back[perm[d] as int] == d);
        }
        let w = |k: int| suffix(out, k + 1);
        crate::shape::lemma_weighted_same(again, w, c, w, out.len() as int);
        law_place_of_coords(out, o);
        assert(src(o) == place(shape, v));
        lemma_place_bound(shape, v, shape.len() as int);
        crate::host_ops::fill::lemma_element_within(src(o), elements(t), es);
    }
    crate::bytes::lemma_picked_element(t.data, es, n, src, place(out, y));
}

} // verus!
