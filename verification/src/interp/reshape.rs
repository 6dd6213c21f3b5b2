//! Operators that only change the shape.

use crate::error::{backend_error, Kind, Result};
use crate::graph::{elem_size, size_of_code, NodeIr};
use crate::host_ops::arith::{divide, quotient, remainder, remainder_of};
use crate::host_ops::{int_tensor, HostTensor};
use crate::interp::norm::from_front;
use crate::interp::window::section;
use crate::num::{checked_product, product_fits};
use crate::plan::{
    one_output, planned, simple, Command, CommandView, Plan, PlanView, Produced, ProducedView, Slot,
    Storage,
};
use crate::rewrite::fold::{first_open, known_dims, substituted};
use crate::shape::product;
use vstd::prelude::*;

verus! {

// --- Shape ------------------------------------------------------------------------------

/// A place in a list of `rank` elements, counted from the end where negative, and moved into
/// the list.
pub open spec fn bounded(v: i64, rank: int) -> int {
    let p = from_front(v, rank);
    if p < 0 {
        0
    } else if p > rank {
        rank
    } else {
        p
    }
}

fn bounded_of(v: i64, rank: usize) -> (r: usize)
    ensures
        r == bounded(v, rank as int),
        r <= rank,
{
    let p: i128 = if v < 0 {
        v as i128 + rank as i128
    } else {
        v as i128
    };
    if p < 0 {
        0
    } else if p > rank as i128 {
        rank
    } else {
        p as usize
    }
}

/// The dimensions that `Shape` gives: all of them, or those between two places.
pub open spec fn shape_part(node: NodeIr, shape: Seq<i64>) -> Seq<i64> {
    let rank = shape.len() as int;
    let start = bounded(node.int_attr("start"@, 0), rank);
    let end = match node.opt_int_attr("end"@) {
        Some(e) => bounded(e, rank),
        None => rank,
    };
    if start < end {
        shape.subrange(start, end)
    } else {
        Seq::empty()
    }
}

/// The result of `Shape`: the dimensions as a tensor of integers.
pub fn shape_op(node: &NodeIr, shape: &[i64]) -> (r: HostTensor)
    ensures
        r@ == int_tensor(
            seq![shape_part(*node, shape@).len() as i64],
            shape_part(*node, shape@),
        ),
{
    let rank: usize = shape.len();
    let start: usize = bounded_of(node.attr_i64("start", 0), rank);
    let end: usize = match node.attr_opt_i64("end") {
        Some(e) => bounded_of(e, rank),
        None => rank,
    };
    let part: Vec<i64> = if start < end {
        section(shape, start, end)
    } else {
        Vec::new()
    };
    assert(part@ =~= shape_part(*node, shape@));
    #[verifier::truncate]
    let dims: Vec<i64> = vec![part.len() as i64];
    assert(dims@ =~= seq![shape_part(*node, shape@).len() as i64]);
    HostTensor::from_i64(dims, part.as_slice())
}

// --- Reshape ----------------------------------------------------------------------------

/// Whether every 0 of the target stands for a dimension of the input.
pub open spec fn zeros_covered(input: Seq<i64>, target: Seq<i64>) -> bool {
    forall|i: int| 0 <= i < target.len() && #[trigger] target[i] == 0 ==> i < input.len()
}

/// Whether at most one dimension is left open.
pub open spec fn one_open(shape: Seq<i64>) -> bool {
    forall|i: int, j: int|
        0 <= i < j < shape.len() && #[trigger] shape[i] == -1 ==> #[trigger] shape[j] != -1
}

/// The number of elements of the input, negative products counting as none.
pub open spec fn held(input: Seq<i64>) -> int {
    if product(input) < 0 {
        0
    } else {
        product(input)
    }
}

/// The shape that a target stands for: 0 takes over the input's dimension, and one -1 takes
/// what is left of the elements.
pub open spec fn reshape_of(input: Seq<i64>, target: Seq<i64>) -> Option<Seq<i64>> {
    let shape = substituted(input, target);
    let known = known_dims(shape);
    if !product_fits(input) || !zeros_covered(input, target) || !one_open(shape) || !product_fits(
        known,
    ) {
        None
    } else if exists|i: int| first_open(shape, i) {
        let i = choose|i: int| first_open(shape, i);
        if product(known) != 0 && remainder(held(input), product(known)) == 0 {
            Some(shape.update(i, quotient(held(input), product(known)) as i64))
        } else {
            None
        }
    } else {
        Some(shape)
    }
}

/// Resolves the target shape of a `Reshape`.
pub fn resolve_reshape(in_shape: &[i64], target: &[i64]) -> (r: Result<Vec<i64>>)
    ensures
        match (r, reshape_of(in_shape@, target@)) {
            (Ok(s), Some(v)) => s@ == v,
            (Err(e), None) => e.kind() == Kind::Backend,
            _ => false,
        },
{
    let total: i64 = match checked_product(in_shape) {
        Some(t) => if t < 0 {
            0
        } else {
            t
        },
        None => {
            return Err(backend_error("the input is too large"));
        },
    };
    let n: usize = target.len();
    let m: usize = in_shape.len();
    let ghost sub = substituted(in_shape@, target@);
    let ghost fate = reshape_of(in_shape@, target@);
    let mut shape: Vec<i64> = Vec::new();
    let mut known: Vec<i64> = Vec::new();
    let mut open: Option<usize> = None;
    let mut i: usize = 0;
    assert(sub.take(0) =~= Seq::empty());
    while i < n
        invariant
            i <= n,
            n == target@.len(),
            m == in_shape@.len(),
            product_fits(in_shape@),
            sub == substituted(in_shape@, target@),
            fate == reshape_of(in_shape@, target@),
            shape@ == sub.take(i as int),
            known@ == known_dims(sub.take(i as int)),
            forall|k: int| 0 <= k < i && #[trigger] target@[k] == 0 ==> k < m,
            match open {
                Some(k) => {
                    &&& first_open(sub, k as int)
                    &&& k < i
                    &&& forall|j: int| k < j < i ==> #[trigger] sub[j] != -1
                },
                None => forall|k: int| 0 <= k < i ==> #[trigger] sub[k] != -1,
            },
        decreases n - i,
    {
        if target[i] == 0 && i >= m {
            assert(!zeros_covered(in_shape@, target@));
            return Err(backend_error("0 stands for no dimension of the input"));
        }
        let d: i64 = if target[i] == 0 {
            in_shape[i]
        } else {
            target[i]
        };
        assert(d == sub[i as int]);
        assert(sub.take(i + 1).drop_last() =~= sub.take(i as int));
        shape.push(d);
        if d != -1 {
            known.push(d);
        } else {
            match open {
                Some(k) => {
                    proof {
                        assert(sub[k as int] == -1);
                        assert(sub[i as int] == -1);
                        assert(!one_open(sub));
                    }
                    return Err(backend_error("more than one dimension is left open"));
                },
                None => {
                    open = Some(i);
                },
            }
        }
        i += 1;
        assert(shape@ =~= sub.take(i as int));
    }
    proof {
        assert(sub.take(n as int) =~= sub);
        assert(zeros_covered(in_shape@, target@));
        assert(one_open(sub)) by {
            assert forall|i: int, j: int|
                0 <= i < j < sub.len() && #[trigger] sub[i] == -1 implies #[trigger] sub[j] != -1 by {
                match open {
                    Some(k) => {
                        if i < k {
                            assert(sub[i] != -1);
                        }
                    },
                    None => {},
                }
            }
        }
    }
    let p: i64 = match checked_product(known.as_slice()) {
        Some(p) => p,
        None => {
            return Err(backend_error("the target is too large"));
        },
    };
    match open {
        Some(k) => {
            proof {
                assert(first_open(sub, k as int));
                let c = choose|i: int| first_open(sub, i);
                if c < k {
                    assert(sub[c] != -1);
                } else if k < c {
                    assert(sub[k as int] != -1);
                }
            }
            if p == 0 || remainder_of(total, p) != 0 {
                return Err(backend_error("the elements do not divide among the dimensions"));
            }
            let q: i64 = divide(total, p);
            shape.set(k, q);
            Ok(shape)
        },
        None => {
            assert(!(exists|i: int| first_open(sub, i)));
            Ok(shape)
        },
    }
}

/// A resolved shape with an open dimension holds the elements of the input.
pub proof fn law_reshape_holds(input: Seq<i64>, target: Seq<i64>, i: int)
    requires
        reshape_of(input, target) is Some,
        first_open(substituted(input, target), i),
    ensures
        product(reshape_of(input, target)->Some_0) == held(input),
{
    let shape = substituted(input, target);
    let known = known_dims(shape);
    let c = choose|i: int| first_open(shape, i);
    assert(c == i) by {
        if c < i {
            assert(shape[c] != -1);
        } else if i < c {
            assert(shape[i] != -1);
        }
    }
    let q = quotient(held(input), product(known));
    crate::host_ops::arith::law_quotient_remainder(held(input), product(known));
    assert(product(known) * q == q * product(known)) by (nonlinear_arith);
    assert(held(input) <= i64::MAX) by {
        if input.len() > 0 {
            assert(product_fits(input));
        }
    }
    lemma_quotient_small(held(input), product(known));
    lemma_filled(shape, i, q as i64, shape.len() as int);
    assert(shape.take(shape.len() as int) =~= shape);
    assert(shape.update(i, q as i64).take(shape.len() as int) =~= shape.update(i, q as i64));
}

proof fn lemma_quotient_small(x: int, y: int)
    requires
        0 <= x <= i64::MAX,
        y != 0,
    ensures
        i64::MIN <= quotient(x, y) <= i64::MAX,
{
    let b = crate::host_ops::arith::magnitude(y);
    assert(0 <= x / b <= x) by (nonlinear_arith)
        requires
            x >= 0,
            b >= 1,
    ;
}

/// With its only open dimension filled, a shape has the product of the others times that one.
proof fn lemma_filled(shape: Seq<i64>, i: int, q: i64, n: int)
    requires
        0 <= n <= shape.len(),
        first_open(shape, i),
        one_open(shape),
    ensures
        product(shape.update(i, q).take(n)) == product(known_dims(shape.take(n))) * (if i < n {
            q as int
        } else {
            1
        }),
    decreases n,
{
    let full = shape.update(i, q);
    if n == 0 {
        assert(full.take(0) =~= Seq::empty());
        assert(shape.take(0) =~= Seq::empty());
    } else {
        lemma_filled(shape, i, q, n - 1);
        assert(full.take(n).drop_last() =~= full.take(n - 1));
        assert(shape.take(n).drop_last() =~= shape.take(n - 1));
        let rest = product(known_dims(shape.take(n - 1)));
        if n - 1 == i {
        } else {
            let d = shape[n - 1];
            assert(d != -1) by {
                if n - 1 < i {
                } else {
                    assert(shape[i] == -1);
                }
            }
            let known = known_dims(shape.take(n - 1));
            assert(known.push(d).drop_last() =~= known);
            let f: int = if i < n - 1 {
                q as int
            } else {
                1
            };
            assert((rest * f) * d == (rest * d) * f) by (nonlinear_arith);
        }
    }
}

// --- Flatten ----------------------------------------------------------------------------

/// The shape after `Flatten`: the product of the dimensions before an axis and from it on.
pub open spec fn flatten_of(node: NodeIr, shape: Seq<i64>) -> Option<Seq<i64>> {
    let axis = from_front(node.int_attr("axis"@, 1), shape.len() as int);
    if 0 <= axis <= shape.len() && product_fits(shape.take(axis)) && product_fits(
        shape.skip(axis),
    ) {
        Some(seq![product(shape.take(axis)) as i64, product(shape.skip(axis)) as i64])
    } else {
        None
    }
}

/// The shape after `Flatten`.
pub fn flatten(node: &NodeIr, shape: &[i64]) -> (r: Result<Vec<i64>>)
    ensures
        match (r, flatten_of(*node, shape@)) {
            (Ok(s), Some(v)) => s@ == v,
            (Err(e), None) => e.kind() == Kind::Backend,
            _ => false,
        },
{
    let rank: usize = shape.len();
    let axis: i64 = node.attr_i64("axis", 1);
    let a: i128 = if axis < 0 {
        axis as i128 + rank as i128
    } else {
        axis as i128
    };
    if a < 0 || a > rank as i128 {
        return Err(backend_error("the axis is not one of the tensor's"));
    }
    let a: usize = a as usize;
    let head = section(shape, 0, a);
    let tail = section(shape, a, rank);
    assert(head@ =~= shape@.take(a as int));
    assert(tail@ =~= shape@.skip(a as int));
    match (checked_product(head.as_slice()), checked_product(tail.as_slice())) {
        (Some(outer), Some(inner)) => {
            let r: Vec<i64> = vec![outer, inner];
            assert(r@ =~= seq![outer, inner]);
            Ok(r)
        },
        _ => Err(backend_error("the shape is too large")),
    }
}

// --- Unsqueeze and Squeeze --------------------------------------------------------------

/// Whether one of the axes, counted from the front of `rank` dimensions, is `p`.
pub open spec fn among(axes: Seq<i64>, rank: int, p: int) -> bool {
    exists|k: int| 0 <= k < axes.len() && #[trigger] from_front(axes[k], rank) == p
}

fn is_among(axes: &[i64], rank: usize, p: usize) -> (r: bool)
    ensures
        r == among(axes@, rank as int, p as int),
{
    let n: usize = axes.len();
    let mut k: usize = 0;
    while k < n
        invariant
            k <= n,
            n == axes@.len(),
            forall|j: int| 0 <= j < k ==> #[trigger] from_front(axes@[j], rank as int) != p,
        decreases n - k,
    {
        let a: i128 = if axes[k] < 0 {
            axes[k] as i128 + rank as i128
        } else {
            axes[k] as i128
        };
        if a == p as i128 {
            assert(from_front(axes@[k as int], rank as int) == p);
            return true;
        }
        k += 1;
    }
    false
}

/// How many of the first `p` of `rank` dimensions are not among the axes.
pub open spec fn others(axes: Seq<i64>, rank: int, p: int) -> int
    decreases p,
{
    if p <= 0 {
        0
    } else {
        others(axes, rank, p - 1) + if among(axes, rank, p - 1) {
            0int
        } else {
            1int
        }
    }
}

proof fn lemma_others(axes: Seq<i64>, rank: int, p: int, q: int)
    requires
        0 <= p <= q,
    ensures
        0 <= others(axes, rank, p) <= others(axes, rank, q) <= others(axes, rank, p) + (q - p),
        others(axes, rank, q) <= q,
    decreases q,
{
    if p < q {
        lemma_others(axes, rank, p, q - 1);
    } else if p > 0 {
        lemma_others(axes, rank, p - 1, q - 1);
    }
}

/// The shape after `Unsqueeze`: dimensions of one element at the axes, the others in order.
pub open spec fn unsqueeze_of(shape: Seq<i64>, axes: Seq<i64>) -> Option<Seq<i64>> {
    let rank = (shape.len() + axes.len()) as int;
    if others(axes, rank, rank) <= shape.len() {
        Some(
            Seq::new(
                rank as nat,
                |p: int|
                    if among(axes, rank, p) {
                        1i64
                    } else {
                        shape[others(axes, rank, p)]
                    },
            ),
        )
    } else {
        None
    }
}

/// The shape after `Unsqueeze`.
pub fn unsqueeze(shape: &[i64], axes: &[i64]) -> (r: Result<Vec<i64>>)
    requires
        shape@.len() + axes@.len() <= usize::MAX,
    ensures
        match (r, unsqueeze_of(shape@, axes@)) {
            (Ok(s), Some(v)) => s@ == v,
            (Err(e), None) => e.kind() == Kind::Backend,
            _ => false,
        },
{
    let m: usize = shape.len();
    let rank: usize = m + axes.len();
    let mut out: Vec<i64> = Vec::new();
    let mut next: usize = 0;
    let mut p: usize = 0;
    while p < rank
        invariant
            p <= rank,
            m == shape@.len(),
            rank == shape@.len() + axes@.len(),
            next == others(axes@, rank as int, p as int),
            next <= m,
            out@.len() == p,
            forall|k: int|
                0 <= k < p ==> #[trigger] out@[k] == (if among(axes@, rank as int, k) {
                    1i64
                } else {
                    shape@[others(axes@, rank as int, k)]
                }),
        decreases rank - p,
    {
        if is_among(axes, rank, p) {
            out.push(1);
        } else if next < m {
            out.push(shape[next]);
            next += 1;
        } else {
            proof {
                lemma_others(axes@, rank as int, p + 1, rank as int);
            }
            return Err(backend_error("the axes do not suit the input"));
        }
        p += 1;
    }
    assert(out@ =~= unsqueeze_of(shape@, axes@)->Some_0);
    Ok(out)
}

/// The dimensions of `shape` among the first `n` that `Squeeze` keeps: those that are not
/// among the axes, or without axes those that are not one.
pub open spec fn squeeze_of(shape: Seq<i64>, axes: Option<Seq<i64>>, n: int) -> Seq<i64>
    decreases n,
{
    if n <= 0 {
        Seq::empty()
    } else {
        let rest = squeeze_of(shape, axes, n - 1);
        if squeezed_away(shape, axes, n - 1) {
            rest
        } else {
            rest.push(shape[n - 1])
        }
    }
}

/// Whether a dimension goes: only those of one element do, and of them only those that the axes
/// name, where there are axes.
pub open spec fn squeezed_away(shape: Seq<i64>, axes: Option<Seq<i64>>, p: int) -> bool {
    shape[p] == 1 && (axes matches Some(a) ==> among(a, shape.len() as int, p))
}

pub open spec fn optional_axes(axes: Option<&[i64]>) -> Option<Seq<i64>> {
    match axes {
        Some(a) => Some(a@),
        None => None,
    }
}

/// The shape after `Squeeze`.
pub fn squeeze(shape: &[i64], axes: Option<&[i64]>) -> (r: Vec<i64>)
    ensures
        r@ == squeeze_of(shape@, optional_axes(axes), shape@.len() as int),
{
    let n: usize = shape.len();
    let mut out: Vec<i64> = Vec::new();
    let mut p: usize = 0;
    while p < n
        invariant
            p <= n,
            n == shape@.len(),
            out@ == squeeze_of(shape@, optional_axes(axes), p as int),
        decreases n - p,
    {
        let gone: bool = match axes {
            Some(a) => shape[p] == 1 && is_among(a, n, p),
            None => shape[p] == 1,
        };
        if !gone {
            out.push(shape[p]);
        }
        p += 1;
    }
    out
}

/// One axis takes at most one dimension away.
proof fn lemma_one_axis(axes: Seq<i64>, rank: int, p: int)
    requires
        axes.len() > 0,
        p >= 0,
    ensures
        others(axes.drop_last(), rank, p) <= others(axes, rank, p) + (if 0 <= from_front(
            axes.last(),
            rank,
        ) < p {
            1int
        } else {
            0int
        }),
    decreases p,
{
    if p > 0 {
        lemma_one_axis(axes, rank, p - 1);
        if among(axes, rank, p - 1) && from_front(axes.last(), rank) != p - 1 {
            let k = choose|k: int|
                0 <= k < axes.len() && #[trigger] from_front(axes[k], rank) == p - 1;
            assert(k < axes.len() - 1);
            assert(from_front(axes.drop_last()[k], rank) == p - 1);
        }
    }
}

/// The axes take away no more dimensions than there are axes.
proof fn lemma_axes(axes: Seq<i64>, rank: int, p: int)
    requires
        p >= 0,
    ensures
        others(axes, rank, p) >= p - axes.len(),
    decreases axes.len(),
{
    if axes.len() == 0 {
        lemma_no_axes(axes, rank, p);
    } else {
        lemma_axes(axes.drop_last(), rank, p);
        lemma_one_axis(axes, rank, p);
    }
}

proof fn lemma_no_axes(axes: Seq<i64>, rank: int, p: int)
    requires
        axes.len() == 0,
        p >= 0,
    ensures
        others(axes, rank, p) == p,
    decreases p,
{
    if p > 0 {
        lemma_no_axes(axes, rank, p - 1);
    }
}

proof fn lemma_squeezed(shape: Seq<i64>, axes: Seq<i64>, p: int)
    requires
        unsqueeze_of(shape, axes) is Some,
        0 <= p <= shape.len() + axes.len(),
    ensures
        0 <= others(axes, (shape.len() + axes.len()) as int, p) <= shape.len(),
        squeeze_of(unsqueeze_of(shape, axes)->Some_0, Some(axes), p) == shape.take(
            others(axes, (shape.len() + axes.len()) as int, p),
        ),
    decreases p,
{
    let rank = (shape.len() + axes.len()) as int;
    lemma_others(axes, rank, p, rank);
    if p == 0 {
        assert(shape.take(0) =~= Seq::empty());
    } else {
        lemma_squeezed(shape, axes, p - 1);
        let t = others(axes, rank, p - 1);
        if !among(axes, rank, p - 1) {
            assert(shape.take(t).push(shape[t]) =~= shape.take(t + 1));
        }
    }
}

/// `Squeeze` keeps the number of elements.
pub proof fn law_squeeze_holds(shape: Seq<i64>, axes: Option<Seq<i64>>, n: int)
    requires
        0 <= n <= shape.len(),
    ensures
        product(squeeze_of(shape, axes, n)) == product(shape.take(n)),
    decreases n,
{
    if n > 0 {
        law_squeeze_holds(shape, axes, n - 1);
        let rest = squeeze_of(shape, axes, n - 1);
        assert(shape.take(n).drop_last() =~= shape.take(n - 1));
        assert(shape.take(n).last() == shape[n - 1]);
        if squeezed_away(shape, axes, n - 1) {
            let x = product(shape.take(n - 1));
            assert(x * 1 == x) by (nonlinear_arith);
        } else {
            assert(rest.push(shape[n - 1]).drop_last() =~= rest);
        }
    } else {
        assert(shape.take(0) =~= Seq::empty());
    }
}

/// `Squeeze` along the same axes undoes `Unsqueeze`.
pub proof fn law_squeeze_undoes(shape: Seq<i64>, axes: Seq<i64>)
    requires
        unsqueeze_of(shape, axes) is Some,
    ensures
        squeeze_of(
            unsqueeze_of(shape, axes)->Some_0,
            Some(axes),
            (shape.len() + axes.len()) as int,
        ) == shape,
{
    let rank = (shape.len() + axes.len()) as int;
    lemma_squeezed(shape, axes, rank);
    lemma_axes(axes, rank, rank);
    assert(shape.take(shape.len() as int) =~= shape);
}

/// `Unsqueeze` keeps the number of elements.
pub proof fn law_unsqueeze_holds(shape: Seq<i64>, axes: Seq<i64>)
    requires
        unsqueeze_of(shape, axes) is Some,
    ensures
        product(unsqueeze_of(shape, axes)->Some_0) == product(shape),
{
    let rank = (shape.len() + axes.len()) as int;
    let out = unsqueeze_of(shape, axes)->Some_0;
    lemma_unsqueezed_product(shape, axes, rank);
    lemma_others(axes, rank, rank, rank);
    lemma_axes(axes, rank, rank);
    assert(out.take(rank) =~= out);
    assert(shape.take(shape.len() as int) =~= shape);
}

proof fn lemma_unsqueezed_product(shape: Seq<i64>, axes: Seq<i64>, p: int)
    requires
        unsqueeze_of(shape, axes) is Some,
        0 <= p <= shape.len() + axes.len(),
    ensures
        0 <= others(axes, (shape.len() + axes.len()) as int, p) <= shape.len(),
        product(unsqueeze_of(shape, axes)->Some_0.take(p)) == product(
            shape.take(others(axes, (shape.len() + axes.len()) as int, p)),
        ),
    decreases p,
{
    let rank = (shape.len() + axes.len()) as int;
    let out = unsqueeze_of(shape, axes)->Some_0;
    lemma_others(axes, rank, p, rank);
    if p == 0 {
        assert(shape.take(0) =~= Seq::empty());
        assert(out.take(0) =~= Seq::empty());
    } else {
        lemma_unsqueezed_product(shape, axes, p - 1);
        assert(out.take(p).drop_last() =~= out.take(p - 1));
        let t = others(axes, rank, p - 1);
        if !among(axes, rank, p - 1) {
            assert(shape.take(t + 1).drop_last() =~= shape.take(t));
        }
    }
}

// --- moving the elements along ----------------------------------------------------------

/// The plan that gives a tensor on the device a new shape: a copy of its bytes.
pub open spec fn reshaped_copy_of(dtype: i32, n: int, shape: Seq<i64>) -> Option<PlanView> {
    let bytes = n * size_of_code(dtype);
    if bytes > usize::MAX {
        None
    } else {
        Some(
            one_output(
                ProducedView {
                    dtype,
                    shape,
                    elem_count: n,
                    storage: Storage::New(
                        if bytes == 0 {
                            1
                        } else {
                            bytes as u64
                        },
                    ),
                },
                if bytes == 0 {
                    Seq::empty()
                } else {
                    seq![CommandView::Copy(Slot::Input(0), Slot::Output(0), bytes)]
                },
            ),
        )
    }
}

/// Plans a new shape for a tensor on the device. The bytes are copied, so that no two tensors
/// own the same buffer.
pub fn meta_reshape_out(dtype: i32, elem_count: usize, shape: Vec<i64>) -> (r: Result<Plan>)
    ensures
        planned(r, reshaped_copy_of(dtype, elem_count as int, shape@)),
{
    match elem_count.checked_mul(elem_size(dtype)) {
        None => Err(backend_error("the tensor is too large")),
        Some(bytes) => {
            let out = Produced {
                dtype,
                shape,
                elem_count,
                storage: Storage::New(
                    if bytes == 0 {
                        1
                    } else {
                        bytes as u64
                    },
                ),
            };
            if bytes == 0 {
                Ok(simple(out, None))
            } else {
                Ok(
                    simple(
                        out,
                        Some(Command::Copy(Slot::Input(0), Slot::Output(0), bytes as u64)),
                    ),
                )
            }
        },
    }
}

} // verus!
