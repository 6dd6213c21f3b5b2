//! What operators that only change or report sizes give.

use crate::graph::NodeIr;
use crate::host_ops::arith::law_quotient_remainder;
use crate::interp::layout::split_sizes_of;
use crate::interp::norm::from_front;
use crate::interp::reshape::{flatten_of, shape_part};
use crate::interp::sampling::{resize_sizes_of, ResizeSizes};
use crate::plan::{CommandView, Slot};
use crate::shape::{lemma_split_product, product};
use vstd::prelude::*;

verus! {

/// **`Flatten` makes a matrix of as many elements**: the dimensions before the axis, and those from
/// it on.
pub proof fn law_flatten(node: NodeIr, shape: Seq<i64>, out: Seq<i64>)
    requires
        flatten_of(node, shape) == Some(out),
    ensures
        ({
            let a = from_front(node.int_attr("axis"@, 1), shape.len() as int);
            &&& 0 <= a <= shape.len()
            &&& out.len() == 2
            &&& out[0] == product(shape.take(a))
            &&& out[1] == product(shape.skip(a))
            &&& out[0] * out[1] == product(shape)
        }),
{
    let a = from_front(node.int_attr("axis"@, 1), shape.len() as int);
    lemma_split_product(shape, a);
    crate::shape_laws::law_suffix_is_product(shape, a);
    if a > 0 {
        assert(shape.take(a).len() > 0);
    } else {
        assert(shape.take(a).len() == 0);
    }
    if shape.skip(a).len() == 0 {
        assert(product(shape.skip(a)) == 1);
    }
}

/// **`Shape` gives the dimensions**: all of them, or those from `start` up to `end`, counted from
/// either end and held within the rank.
pub proof fn law_shape_part(node: NodeIr, shape: Seq<i64>, i: int)
    requires
        !node.attrs.has("end"@),
        0 <= node.int_attr("start"@, 0) <= shape.len(),
        0 <= i < shape.len() - node.int_attr("start"@, 0),
    ensures
        shape_part(node, shape).len() == shape.len() - node.int_attr("start"@, 0),
        shape_part(node, shape)[i] == shape[node.int_attr("start"@, 0) + i],
{
}

/// The same with both ends given.
pub proof fn law_shape_between(node: NodeIr, shape: Seq<i64>, start: int, end: int)
    requires
        start == from_front(node.int_attr("start"@, 0), shape.len() as int),
        node.opt_int_attr("end"@) matches Some(e) && end == from_front(e, shape.len() as int),
        0 <= start <= end <= shape.len(),
    ensures
        shape_part(node, shape) == shape.subrange(start, end),
{
    if start == end {
        assert(shape.subrange(start, end) =~= Seq::empty());
    }
}

/// **A split without sizes is even**: as many parts as there are outputs, all of one size, which
/// together make up the axis. Sizes that are given are taken as they are.
pub proof fn law_split_sizes(
    node: NodeIr,
    shape: Seq<i64>,
    given: Option<Seq<i64>>,
    axis: int,
    sizes: Seq<i64>,
    j: int,
)
    requires
        split_sizes_of(node, shape, given) == Some((axis, sizes)),
        0 <= j < sizes.len(),
    ensures
        axis == from_front(node.int_attr("axis"@, 0), shape.len() as int),
        0 <= axis < shape.len(),
        sizes.len() == node.outputs@.len(),
        node.ints_attr("split"@) matches Some(s) ==> sizes == s,
        node.ints_attr("split"@) is None ==> (given matches Some(s) ==> sizes == s),
        node.ints_attr("split"@) is None && given is None ==> sizes[j] * sizes.len() == shape[axis],
{
    if node.ints_attr("split"@) is None && given is None {
        let n = node.outputs@.len() as int;
        let x = shape[axis] as int;
        law_quotient_remainder(x, n);
        let q = crate::host_ops::arith::quotient(x, n);
        assert(crate::host_ops::arith::magnitude(q) <= crate::host_ops::arith::magnitude(x)
            && q <= i64::MAX && q >= i64::MIN) by {
            let m = crate::host_ops::arith::magnitude(x);
            assert(m / n <= m && m / n >= 0) by (nonlinear_arith)
                requires
                    m >= 0,
                    n >= 1,
            ;
            if x == i64::MIN && n == 1 {
                assert(m / 1 == m);
            }
        }
    }
}

/// **A resampling by sizes takes the sizes**, and one by factors keeps them: batch and channels
/// stay, the last dimension is the width, and the one before it, where there is one, the height.
pub proof fn law_resize_sizes(
    x: Seq<i64>,
    scales: Option<Seq<u32>>,
    sizes: Option<Seq<u32>>,
    z: ResizeSizes,
)
    requires
        resize_sizes_of(x, scales, sizes) == Some(z),
    ensures
        x.len() == 3 || x.len() == 4,
        z.w_in == x[x.len() - 1],
        x.len() == 4 ==> z.h_in == x[2],
        x.len() == 3 ==> z.h_in == 1,
        z.h_out > 0,
        z.w_out > 0,
        ({
            let by_factors = scales is Some && scales->Some_0.len() > 0;
            &&& by_factors ==> {
                let s = scales->Some_0;
                &&& s.len() == x.len()
                &&& z.scales is Some
                &&& z.scales->Some_0.w == s[x.len() - 1]
                &&& x.len() == 4 ==> z.scales->Some_0.h == s[2]
                &&& x.len() == 3 ==> z.scales->Some_0.h == 0x3f80_0000
            }
            &&& !by_factors ==> {
                let s = sizes->Some_0;
                &&& sizes is Some
                &&& s.len() == x.len()
                &&& z.scales is None
                &&& crate::floats::to_i64_spec(s[0]) == x[0]
                &&& crate::floats::to_i64_spec(s[1]) == x[1]
                &&& x.len() == 3 ==> z.h_out == 1
                &&& x.len() == 4 && crate::floats::to_i64_spec(s[2]) <= i64::MAX ==> z.h_out
                    == crate::floats::to_i64_spec(s[2])
                &&& crate::floats::to_i64_spec(s[x.len() - 1]) <= i64::MAX ==> z.w_out
                    == crate::floats::to_i64_spec(s[x.len() - 1])
            }
        }),
{
}

/// **A copy with a new shape moves all bytes and no others.**
pub proof fn law_reshaped_copy(dtype: i32, n: int, shape: Seq<i64>)
    requires
        crate::interp::reshape::reshaped_copy_of(dtype, n, shape) is Some,
        n > 0,
        crate::graph::size_of_code(dtype) > 0,
    ensures
        ({
            let p = crate::interp::reshape::reshaped_copy_of(dtype, n, shape)->Some_0;
            let bytes = n * crate::graph::size_of_code(dtype);
            &&& p.outputs.len() == 1
            &&& p.outputs[0].dtype == dtype
            &&& p.outputs[0].shape == shape
            &&& p.outputs[0].elem_count == n
            &&& p.outputs[0].storage == crate::plan::Storage::New(bytes as u64)
            &&& p.scratch.len() == 0
            &&& p.commands == seq![CommandView::Copy(Slot::Input(0), Slot::Output(0), bytes)]
        }),
{
    let c = crate::graph::size_of_code(dtype) as int;
    assert(n * c > 0) by (nonlinear_arith)
        requires
            n > 0,
            c > 0,
    ;
}

} // verus!
