//! What kernels over elements, lines and maps are started with.

use crate::graph::NodeIr;
use crate::host_ops::{BinOp, FLOAT, INT32, INT8, UINT8};
use crate::interp::elementwise::{cast_of, clip_of, gpu_binary_of, mapped_of};
use crate::interp::launch::{
    fresh_words, lemma_fresh, lemma_reach, reach_all, told, told_whether,
};
use crate::interp::norm::{
    batchnorm_of, from_front, layernorm_of, rmsnorm_of, skip_rmsnorm_of, softmax_of,
};
use crate::interp::product_laws::told_strides;
use crate::interp::quantize::{dequantize_plan_of, dynamic_quantize_of, quantize_plan_of};
use crate::interp::sampling::{
    grid_sample_of, pool_geometry_of, pool_of, reduce_of, resize_of, PoolKind, ResizeSizes, Scales,
};
use crate::num::{ceil_div, volume_of, w32};
use crate::plan::{
    CommandView, DispatchView, Kernel, PlanView, ReduceKind, ScratchView, Slot, Storage,
};
use crate::shaders::MAX_RANK;
use crate::shape::{count_of, joint_shape, product, unit_suffix};
use vstd::prelude::*;

verus! {

/// Whether a plan has one output and runs one kernel for it, or none where there are no elements.
pub open spec fn one_run(p: PlanView, n: int) -> bool {
    &&& p.outputs.len() == 1
    &&& p.scratch.len() == 0
    &&& p.commands.len() == if n == 0 {
        0int
    } else {
        1
    }
    &&& n != 0 ==> p.commands[0] is Run
}

/// What the only kernel of a plan is started with.
pub open spec fn the_run(p: PlanView) -> DispatchView {
    p.commands[0]->Run_0
}

/// Whether 256 elements to a work group, along one dimension, reach all `n`.
pub open spec fn in_groups_of_256(d: DispatchView, n: int) -> bool {
    reach_all(d.grid.x, 256, n) && d.grid.y == 1 && d.grid.z == 1
}

// --- elements ---------------------------------------------------------------------------

/// **A function of one variable goes from the input to the output**, element by element, and keeps
/// the shape.
pub proof fn law_mapped_is_started(kernel: Kernel, shape: Seq<i64>, n: int, rest: Seq<u32>, p: PlanView)
    requires
        mapped_of(kernel, shape, n, rest) == Some(p),
        n >= 0,
    ensures
        one_run(p, n),
        fresh_words(p.outputs[0], FLOAT, shape, n),
        n > 0 ==> {
            let d = the_run(p);
            &&& d.kernel == kernel
            &&& d.slots == seq![Slot::Input(0), Slot::Output(0)]
            &&& told(d.push, 0, n)
            &&& d.push.skip(1) == rest
            &&& in_groups_of_256(d, n)
        },
{
    lemma_fresh(FLOAT, n);
    lemma_reach(n, 256);
    if n > 0 {
        assert(the_run(p).push.skip(1) =~= rest);
    }
}

/// **`Clip` is bounded below and above**: by an attribute where there is one, else by the first
/// element of an input, else not at all.
pub proof fn law_clip_is_started(
    node: NodeIr,
    shape: Seq<i64>,
    n: int,
    lo: Option<Seq<u32>>,
    hi: Option<Seq<u32>>,
    p: PlanView,
)
    requires
        clip_of(node, shape, n, lo, hi) == Some(p),
        n > 0,
    ensures
        one_run(p, n),
        fresh_words(p.outputs[0], FLOAT, shape, n),
        ({
            let d = the_run(p);
            let below = d.push[1];
            let above = d.push[2];
            &&& d.kernel == Kernel::Clip
            &&& d.slots == seq![Slot::Input(0), Slot::Output(0)]
            &&& d.push.len() == 3
            &&& told(d.push, 0, n)
            &&& in_groups_of_256(d, n)
            &&& node.attrs.has("min"@) && node.attrs.at("min"@) is Float ==> below
                == node.attrs.at("min"@)->Float_0
            &&& !node.attrs.has("min"@) ==> below == match lo {
                Some(v) if v.len() > 0 => v[0],
                _ => 0xff80_0000u32,
            }
            &&& node.attrs.has("max"@) && node.attrs.at("max"@) is Float ==> above
                == node.attrs.at("max"@)->Float_0
            &&& !node.attrs.has("max"@) ==> above == match hi {
                Some(v) if v.len() > 0 => v[0],
                _ => 0x7f80_0000u32,
            }
        }),
{
    lemma_fresh(FLOAT, n);
    lemma_reach(n, 256);
}

/// **A conversion on the device** gives as many elements of the new type: a copy where the type
/// stays, otherwise a kernel that is told which way to go.
pub proof fn law_cast_is_started(from: i32, to: i32, shape: Seq<i64>, n: int, p: PlanView)
    requires
        cast_of(from, to, shape, n) == Some(p),
        n >= 0,
        to == FLOAT || to == INT32,
        from == FLOAT || from == INT32,
    ensures
        p.outputs.len() == 1,
        p.scratch.len() == 0,
        fresh_words(p.outputs[0], to, shape, n),
        n == 0 ==> p.commands.len() == 0,
        n > 0 && from == to ==> p.commands == seq![
            CommandView::Copy(Slot::Input(0), Slot::Output(0), 4 * n),
        ],
        n > 0 && from != to ==> one_run(p, n) && {
            let d = the_run(p);
            &&& d.kernel == Kernel::Cast
            &&& d.slots == seq![Slot::Input(0), Slot::Output(0)]
            &&& d.push.len() == 2
            &&& told(d.push, 0, n)
            &&& told_whether(d.push, 1, from == FLOAT)
            &&& in_groups_of_256(d, n)
        },
{
    lemma_fresh(to, n);
    lemma_reach(n, 256);
}

/// **Arithmetic on two operands** takes the left one first; the result has the shape to which both
/// broadcast, and the kernel is told how to walk each of them.
pub proof fn law_binary_is_started(op: BinOp, a: Seq<i64>, b: Seq<i64>, p: PlanView)
    requires
        gpu_binary_of(op, a, b) == Some(p),
    ensures
        ({
            let shape = joint_shape(a, b);
            let n = volume_of(shape)->Some_0;
            let r = shape.len() as int;
            let d = the_run(p);
            &&& product(shape) >= 0 ==> n == product(shape)
            &&& one_run(p, n)
            &&& fresh_words(p.outputs[0], FLOAT, shape, n)
            &&& n > 0 ==> {
                &&& d.kernel == Kernel::Binary(op)
                &&& d.slots == seq![Slot::Input(0), Slot::Input(1), Slot::Output(0)]
                &&& d.push.len() == 4 + 3 * MAX_RANK
                &&& told(d.push, 0, n)
                &&& told(d.push, 1, r)
                &&& forall|i: int|
                    0 <= i < r ==> told(d.push, #[trigger] (4 + i), unit_suffix(shape, i + 1))
                &&& told_strides(d.push, 4 + MAX_RANK, a, r)
                &&& told_strides(d.push, 4 + 2 * MAX_RANK, b, r)
                &&& in_groups_of_256(d, n)
            }
        }),
{
    let shape = joint_shape(a, b);
    let n = volume_of(shape)->Some_0;
    lemma_fresh(FLOAT, n);
    lemma_reach(n, 256);
    if n > 0 {
        let d = the_run(p);
        let r = shape.len() as int;
        let words = crate::shaders::broadcast_words(a, b);
        assert(words.len() == 3 * MAX_RANK);
        assert forall|i: int| 0 <= i < r implies told(
            d.push,
            #[trigger] (4 + i),
            unit_suffix(shape, i + 1),
        ) by {
            assert(d.push[4 + i] == words[i]);
        }
        assert forall|k: int| 0 <= k < MAX_RANK implies if k < r {
            told(d.push, #[trigger] (4 + MAX_RANK + k), crate::shape::joint_stride(a, r, k))
        } else {
            d.push[4 + MAX_RANK + k] == 0
        } by {
            assert(d.push[4 + MAX_RANK + k] == words[MAX_RANK + k]);
        }
        assert forall|k: int| 0 <= k < MAX_RANK implies if k < r {
            told(d.push, #[trigger] (4 + 2 * MAX_RANK + k), crate::shape::joint_stride(b, r, k))
        } else {
            d.push[4 + 2 * MAX_RANK + k] == 0
        } by {
            assert(d.push[4 + 2 * MAX_RANK + k] == words[2 * MAX_RANK + k]);
        }
    }
}

// --- lines ------------------------------------------------------------------------------

/// **A softmax works on lines along its axis**, counted from either end and the last by default:
/// it is told how long they are, how far apart their elements, and how many there are, and its
/// work groups reach each.
pub proof fn law_softmax_is_started(node: NodeIr, shape: Seq<i64>, n: int, p: PlanView)
    requires
        softmax_of(node, shape, n) == Some(p),
        n >= 0,
    ensures
        one_run(p, n),
        fresh_words(p.outputs[0], FLOAT, shape, n),
        ({
            let a = from_front(node.int_attr("axis"@, (-1) as i64), shape.len() as int);
            let d = the_run(p);
            let c = shape[a] as int;
            let behind = product(shape.skip(a + 1));
            &&& 0 <= a < shape.len()
            &&& n > 0 && c > 0 ==> {
                &&& d.kernel == Kernel::Softmax
                &&& d.slots == seq![Slot::Input(0), Slot::Output(0)]
                &&& d.push.len() == 4
                &&& told(d.push, 0, c)
                &&& behind >= 1 ==> told(d.push, 1, behind)
                &&& told(d.push, 2, n / c)
                &&& d.push[3] == d.grid.x
                &&& 1 <= d.grid.x <= 65535
                &&& n / c <= u32::MAX ==> n / c <= d.grid.x * d.grid.y && d.grid.z == 1
            }
        }),
{
    lemma_fresh(FLOAT, n);
    let a = from_front(node.int_attr("axis"@, (-1) as i64), shape.len() as int);
    let c = shape[a] as int;
    if n > 0 && c > 0 {
        let rows = n / c;
        assert(rows >= 0) by (nonlinear_arith)
            requires
                rows == n / c,
                n > 0,
                c > 0,
        ;
        let gx = if rows < 1 {
            1
        } else if rows > 32768 {
            32768
        } else {
            rows
        };
        lemma_reach(rows, gx);
        assert(gx * ceil_div(rows, gx) == ceil_div(rows, gx) * gx) by (nonlinear_arith);
    }
}

/// Whether a normalization along the last dimension has a work group for each line, and is told
/// how long they are.
pub open spec fn normalizes_lines(d: DispatchView, shape: Seq<i64>, n: int) -> bool {
    let c = if shape.len() == 0 {
        1
    } else {
        shape.last() as int
    };
    &&& told(d.push, 0, c)
    &&& c >= 1 ==> d.grid.x == n / c
    &&& d.grid.y == 1
    &&& d.grid.z == 1
}

/// **A layer normalization** takes the input, the scale and the bias in this order, is told its
/// epsilon and whether there is a bias, and has a work group for each line of the last dimension,
/// of which the scale has the length.
pub proof fn law_layernorm_is_started(
    node: NodeIr,
    shape: Seq<i64>,
    n: int,
    scale_count: int,
    has_bias: bool,
    p: PlanView,
)
    requires
        layernorm_of(node, shape, n, scale_count, has_bias) == Some(p),
        n >= 0,
    ensures
        from_front(node.int_attr("axis"@, (-1) as i64), shape.len() as int) == shape.len() - 1,
        shape.len() > 0 ==> scale_count == shape.last(),
        one_run(p, n),
        fresh_words(p.outputs[0], FLOAT, shape, n),
        n > 0 ==> {
            let d = the_run(p);
            &&& d.kernel == Kernel::LayerNorm
            &&& d.slots.len() == 4
            &&& d.slots[0] == Slot::Input(0)
            &&& d.slots[1] == Slot::Input(1)
            &&& has_bias ==> d.slots[2] == Slot::Input(2)
            &&& d.slots[3] == Slot::Output(0)
            &&& d.push.len() == 3
            &&& normalizes_lines(d, shape, n)
            &&& d.push[1] == node.float_attr("epsilon"@, 0x3727_c5ac)
            &&& told_whether(d.push, 2, has_bias)
        },
{
    lemma_fresh(FLOAT, n);
    lemma_lines(shape, n);
}

proof fn lemma_lines(shape: Seq<i64>, n: int)
    requires
        n >= 0,
    ensures
        ({
            let c = crate::interp::norm::last_dim(shape);
            crate::interp::norm::row_cols_of(shape, n) is Some && c >= 1 ==> w32(n / (c as int)) == n / (
            c as int)
        }),
{
    let c = crate::interp::norm::last_dim(shape) as int;
    if c >= 1 {
        assert(n / c >= 0) by (nonlinear_arith)
            requires
                n >= 0,
                c >= 1,
        ;
    }
}

/// **A root mean square normalization** takes the input and the scale in this order and is told
/// its epsilon; a work group has each line.
pub proof fn law_rmsnorm_is_started(node: NodeIr, shape: Seq<i64>, n: int, scale_count: int, p: PlanView)
    requires
        rmsnorm_of(node, shape, n, scale_count) == Some(p),
        n >= 0,
    ensures
        shape.len() > 0 ==> scale_count == shape.last(),
        one_run(p, n),
        fresh_words(p.outputs[0], FLOAT, shape, n),
        n > 0 ==> {
            let d = the_run(p);
            &&& d.kernel == Kernel::RmsNorm
            &&& d.slots == seq![Slot::Input(0), Slot::Input(1), Slot::Output(0)]
            &&& d.push.len() == 2
            &&& normalizes_lines(d, shape, n)
            &&& d.push[1] == node.float_attr("epsilon"@, 0x3727_c5ac)
        },
{
    lemma_fresh(FLOAT, n);
    lemma_lines(shape, n);
}

/// **The same of the sum of two tensors of one shape**: both, then the scale.
pub proof fn law_skip_rmsnorm_is_started(
    node: NodeIr,
    shape: Seq<i64>,
    n: int,
    skip: Seq<i64>,
    scale_count: int,
    p: PlanView,
)
    requires
        skip_rmsnorm_of(node, shape, n, skip, scale_count) == Some(p),
        n >= 0,
    ensures
        skip == shape,
        shape.len() > 0 ==> scale_count == shape.last(),
        one_run(p, n),
        fresh_words(p.outputs[0], FLOAT, shape, n),
        n > 0 ==> {
            let d = the_run(p);
            &&& d.kernel == Kernel::SkipRmsNorm
            &&& d.slots == seq![Slot::Input(0), Slot::Input(1), Slot::Input(2), Slot::Output(0)]
            &&& d.push.len() == 2
            &&& normalizes_lines(d, shape, n)
            &&& d.push[1] == node.float_attr("epsilon"@, 0x3727_c5ac)
        },
{
    lemma_fresh(FLOAT, n);
    lemma_lines(shape, n);
}

/// **A batch normalization** takes the input, then scale, bias, mean and variance, each with a
/// value for every channel; it is told how many elements and channels there are and how many
/// elements a channel has in one image.
pub proof fn law_batchnorm_is_started(
    node: NodeIr,
    shape: Seq<i64>,
    n: int,
    counts: Seq<usize>,
    p: PlanView,
)
    requires
        batchnorm_of(node, shape, n, counts) == Some(p),
        n >= 0,
    ensures
        shape.len() >= 2,
        forall|i: int| 0 <= i < 4 ==> #[trigger] counts[i] == shape[1],
        one_run(p, n),
        fresh_words(p.outputs[0], FLOAT, shape, n),
        n > 0 ==> {
            let d = the_run(p);
            &&& d.kernel == Kernel::BatchNorm
            &&& d.slots.len() == 6
            &&& forall|i: int| 0 <= i < 5 ==> #[trigger] d.slots[i] == Slot::Input(i as usize)
            &&& d.slots[5] == Slot::Output(0)
            &&& d.push.len() == 4
            &&& told(d.push, 0, n)
            &&& told(d.push, 1, shape[1] as int)
            &&& count_of(shape.skip(2)) matches Some(s) && told(d.push, 2, s)
            &&& d.push[3] == node.float_attr("epsilon"@, 0x3727_c5ac)
            &&& in_groups_of_256(d, n)
        },
{
    lemma_fresh(FLOAT, n);
    lemma_reach(n, 256);
}

// --- quantization -----------------------------------------------------------------------

/// **Dynamic quantization looks for the extremes first**: every element is looked at, scale and
/// zero point are made from what was found, and then every element is quantized with them.
pub proof fn law_dynamic_quantize_is_started(shape: Seq<i64>, n: int, p: PlanView)
    requires
        dynamic_quantize_of(shape, n) == Some(p),
        0 <= n <= u32::MAX,
    ensures
        n > 0,
        p.outputs.len() == 3,
        p.outputs[0].dtype == UINT8,
        p.outputs[0].shape == shape,
        p.outputs[0].elem_count == n,
        p.outputs[0].storage matches Storage::New(b) && b >= n,
        fresh_words(p.outputs[1], FLOAT, Seq::empty(), 1),
        p.outputs[2].dtype == UINT8,
        p.outputs[2].shape == Seq::<i64>::empty(),
        p.outputs[2].elem_count == 1,
        p.commands.len() == 3,
        p.commands[0] is Run,
        p.commands[1] is Run,
        p.commands[2] is Run,
        ({
            let look = p.commands[0]->Run_0;
            let decide = p.commands[1]->Run_0;
            let apply = p.commands[2]->Run_0;
            &&& p.scratch.len() == 1
            &&& p.scratch[0] matches ScratchView::Temporary(b) && b >= 8 * look.grid.x
            &&& look.kernel == Kernel::QuantizePartial
            &&& look.slots == seq![Slot::Input(0), Slot::Scratch(0)]
            &&& look.push == seq![n as u32]
            &&& 1 <= look.grid.x
            &&& reach_all(look.grid.x, 256, n) || look.grid.x == 1024
            &&& look.grid.y == 1
            &&& look.grid.z == 1
            &&& decide.kernel == Kernel::QuantizeFinal
            &&& decide.slots == seq![Slot::Scratch(0), Slot::Output(1), Slot::Output(2)]
            &&& decide.push == seq![look.grid.x]
            &&& decide.grid.x == 1
            &&& apply.kernel == Kernel::QuantizeApply
            &&& apply.slots == seq![
                Slot::Input(0),
                Slot::Output(1),
                Slot::Output(2),
                Slot::Output(0),
            ]
            &&& apply.push == seq![n as u32]
            &&& n <= 1024 * apply.grid.x
            &&& apply.grid.y == 1
            &&& apply.grid.z == 1
        }),
{
    lemma_fresh(FLOAT, 1);
    lemma_reach(n, 256);
    lemma_reach(ceil_div(n, 4), 256);
    crate::execution::law_device_words(UINT8, n);
    assert(crate::graph::code_bits(UINT8) == Some(8usize));
    assert(ceil_div(n, 256) >= 1) by (nonlinear_arith)
        requires
            ceil_div(n, 256) == (n + 255) / 256,
            n >= 1,
    ;
    let q = ceil_div(n, 4);
    assert(4 * q >= n && 0 <= q <= n);
    let g = crate::interp::quantize::partial_groups(n);
    assert(1 <= g <= 1024);
    assert(seq![w32(g)] =~= seq![p.commands[0]->Run_0.grid.x]);
}

/// Whether a kernel between numbers and quantized ones is told how far apart elements of
/// neighbouring scales are, and how many scales there are: one for all, or one for every element
/// along an axis.
pub open spec fn told_scales(d: DispatchView, node: NodeIr, x: Seq<i64>, scale: Seq<i64>) -> bool {
    let a = from_front(node.int_attr("axis"@, 1), x.len() as int);
    let behind = product(x.skip(a + 1));
    if product(scale) <= 1 {
        told(d.push, 1, 1) && told(d.push, 2, 1)
    } else {
        &&& scale.len() == 1
        &&& 0 <= a < x.len()
        &&& x[a] == product(scale)
        &&& behind >= 1 ==> told(d.push, 1, behind)
        &&& told(d.push, 2, product(scale))
    }
}

/// Whether a kernel takes what is to be converted, the scales, and the zero points where there are
/// some, in this order, and writes the output.
pub open spec fn takes_scales(d: DispatchView, has_zero: bool) -> bool {
    &&& d.slots.len() == 4
    &&& d.slots[0] == Slot::Input(0)
    &&& d.slots[1] == Slot::Input(1)
    &&& d.slots[2] == if has_zero {
        Slot::Input(2)
    } else {
        Slot::Zero
    }
    &&& d.slots[3] == Slot::Output(0)
}

/// **Dequantization** takes elements, scales and zero points, and is told of the sign of bytes;
/// integers of four bytes have a kernel of their own.
pub proof fn law_dequantize_is_started(
    node: NodeIr,
    x: Seq<i64>,
    dtype: i32,
    scale: Seq<i64>,
    has_zero: bool,
    p: PlanView,
)
    requires
        dequantize_plan_of(node, x, dtype, scale, has_zero) == Some(p),
    ensures
        dtype == UINT8 || dtype == INT8 || dtype == INT32,
        ({
            let n = volume_of(x)->Some_0;
            let d = the_run(p);
            &&& product(x) >= 0 ==> n == product(x)
            &&& one_run(p, n)
            &&& fresh_words(p.outputs[0], FLOAT, x, n)
            &&& n > 0 ==> {
                &&& d.kernel == if dtype == INT32 {
                    Kernel::DequantizeInt32
                } else {
                    Kernel::Dequantize
                }
                &&& takes_scales(d, has_zero)
                &&& d.push.len() == 5
                &&& told(d.push, 0, n)
                &&& told_scales(d, node, x, scale)
                &&& told_whether(d.push, 3, dtype == INT8)
                &&& told_whether(d.push, 4, has_zero)
                &&& in_groups_of_256(d, n)
            }
        }),
{
    let n = volume_of(x)->Some_0;
    lemma_fresh(FLOAT, n);
    lemma_reach(n, 256);
}

/// **Quantization** takes elements, scales and zero points, gives bytes of the type of the zero
/// point, or else of the attribute, or else without sign, and reaches every word of four.
pub proof fn law_quantize_is_started(
    node: NodeIr,
    x: Seq<i64>,
    scale: Seq<i64>,
    zero: Option<i32>,
    p: PlanView,
)
    requires
        quantize_plan_of(node, x, scale, zero) == Some(p),
    ensures
        ({
            let n = volume_of(x)->Some_0;
            let d = the_run(p);
            let out = p.outputs[0];
            &&& product(x) >= 0 ==> n == product(x)
            &&& one_run(p, n)
            &&& out.dtype == UINT8 || out.dtype == INT8
            &&& zero matches Some(z) ==> out.dtype == z
            &&& zero is None && !node.attrs.has("output_dtype"@) ==> out.dtype == UINT8
            &&& out.shape == x
            &&& out.elem_count == n
            &&& out.storage matches Storage::New(b) && b >= n
            &&& n > 0 ==> {
                &&& d.kernel == Kernel::Quantize
                &&& takes_scales(d, zero is Some)
                &&& d.push.len() == 5
                &&& told(d.push, 0, n)
                &&& told_scales(d, node, x, scale)
                &&& told_whether(d.push, 3, out.dtype == INT8)
                &&& told_whether(d.push, 4, zero is Some)
                &&& n <= u32::MAX ==> n <= 1024 * d.grid.x
                &&& d.grid.y == 1
                &&& d.grid.z == 1
            }
        }),
{
    let n = volume_of(x)->Some_0;
    let out = p.outputs[0];
    crate::execution::law_device_words(out.dtype, n);
    assert(crate::graph::code_bits(out.dtype) == Some(8usize));
    if 0 <= n <= u32::MAX {
        let q = ceil_div(n, 4);
        assert(4 * q >= n && 0 <= q <= n);
        lemma_reach(q, 256);
    }
}

// --- maps -------------------------------------------------------------------------------

/// **A pooling** is told of the geometry of its window and whether padding counts; the maximum and
/// the mean have kernels of their own.
pub proof fn law_pool_is_started(node: NodeIr, kind: PoolKind, x: Seq<i64>, p: PlanView)
    requires
        pool_of(node, kind, x) == Some(p),
    ensures
        ({
            let g = pool_geometry_of(node, kind, x)->Some_0;
            let d = the_run(p);
            &&& g.c_out == x[1]
            &&& g.n == x[0]
            &&& g.h_in == x[2]
            &&& x.len() == 4 ==> g.w_in == x[3]
            &&& kind == PoolKind::GlobalAverage ==> g.kh == g.h_in && g.sh == 1 && (x.len() == 4
                ==> g.kw == g.w_in && g.sw == 1)
            &&& g.total >= 0
            &&& one_run(p, g.total)
            &&& fresh_words(p.outputs[0], FLOAT, g.out_shape, g.total)
            &&& g.total > 0 ==> {
                &&& d.kernel == if kind == PoolKind::Max {
                    Kernel::MaxPool
                } else {
                    Kernel::AveragePool
                }
                &&& d.slots == seq![Slot::Input(0), Slot::Output(0)]
                &&& d.push.len() == 15
                &&& told(d.push, 0, g.total)
                &&& told(d.push, 1, x[1] as int)
                &&& told(d.push, 2, g.h_in)
                &&& told(d.push, 3, g.w_in)
                &&& told(d.push, 4, g.h_out)
                &&& told(d.push, 5, g.w_out)
                &&& told(d.push, 6, g.kh)
                &&& told(d.push, 7, g.kw)
                &&& told(d.push, 8, g.sh)
                &&& told(d.push, 9, g.sw)
                &&& told(d.push, 10, g.phb)
                &&& told(d.push, 11, g.pwb)
                &&& told(d.push, 12, g.dh)
                &&& told(d.push, 13, g.dw)
                &&& told(d.push, 14, node.int_attr("count_include_pad"@, 0) as int)
                &&& in_groups_of_256(d, g.total)
            }
        }),
{
    let g = pool_geometry_of(node, kind, x)->Some_0;
    lemma_fresh(FLOAT, g.total);
    lemma_reach(g.total, 256);
    if kind == PoolKind::GlobalAverage {
        assert(x.skip(2)[0] == x[2]);
        if x.len() == 4 {
            assert(x.skip(2)[1] == x[3]);
        }
    }
}

/// Whether work groups of 256 in two dimensions reach all `n`, and the kernel is told how many
/// invocations a row of them has.
pub open spec fn in_rows_of_groups(d: DispatchView, n: int, stride: int) -> bool {
    n <= u32::MAX ==> {
        &&& told(d.push, stride, 256 * d.grid.x)
        &&& 1 <= d.grid.x <= 65535
        &&& n <= 256 * d.grid.x * d.grid.y
        &&& d.grid.z == 1
    }
}

proof fn lemma_rows_of_groups(n: int)
    requires
        0 <= n <= u32::MAX,
    ensures
        ({
            let x = crate::interp::sampling::spread(n as u32);
            &&& 1 <= x <= 32768
            &&& 0 <= ceil_div(n, x * 256) <= u32::MAX
            &&& n <= 256 * x * ceil_div(n, x * 256)
        }),
{
    let x = crate::interp::sampling::spread(n as u32);
    lemma_reach(n, x * 256);
    let y = ceil_div(n, x * 256);
    assert(y * (x * 256) == 256 * x * y) by (nonlinear_arith);
}

/// **A reduction gives one number for each line along its axis**: the axis has one element
/// afterwards, or goes; the kernel is told how long lines are, how far apart their elements, and
/// how many there are.
pub proof fn law_reduce_is_started(node: NodeIr, kind: ReduceKind, shape: Seq<i64>, n: int, p: PlanView)
    requires
        reduce_of(node, kind, shape, n) == Some(p),
        n >= 0,
    ensures
        node.ints_attr("axes"@) is Some,
        node.ints_attr("axes"@)->Some_0.len() == 1,
        ({
            let a = from_front(node.ints_attr("axes"@)->Some_0[0], shape.len() as int);
            let c = shape[a] as int;
            let rows = if c > 0 {
                n / c
            } else {
                0
            };
            let out = p.outputs[0];
            let d = the_run(p);
            let behind = product(shape.skip(a + 1));
            &&& 0 <= a < shape.len()
            &&& one_run(p, rows)
            &&& fresh_words(out, FLOAT, out.shape, rows)
            &&& if node.int_attr("keepdims"@, 1) != 0 {
                &&& out.shape.len() == shape.len()
                &&& out.shape[a] == 1
                &&& forall|i: int| 0 <= i < shape.len() && i != a ==> #[trigger] out.shape[i] == shape[i]
            } else {
                &&& out.shape.len() == shape.len() - 1
                &&& forall|i: int|
                    0 <= i < shape.len() - 1 ==> #[trigger] out.shape[i] == if i < a {
                        shape[i]
                    } else {
                        shape[i + 1]
                    }
            }
            &&& rows > 0 ==> {
                &&& d.kernel == Kernel::Reduce(kind)
                &&& d.slots == seq![Slot::Input(0), Slot::Output(0)]
                &&& d.push.len() == 4
                &&& told(d.push, 0, c)
                &&& behind >= 1 ==> told(d.push, 1, behind)
                &&& told(d.push, 2, rows)
                &&& in_rows_of_groups(d, rows, 3)
            }
        }),
{
    let a = from_front(node.ints_attr("axes"@)->Some_0[0], shape.len() as int);
    let c = shape[a] as int;
    let rows = if c > 0 {
        n / c
    } else {
        0
    };
    if c > 0 {
        assert(rows >= 0) by (nonlinear_arith)
            requires
                rows == n / c,
                n >= 0,
                c > 0,
        ;
    }
    lemma_fresh(FLOAT, rows);
    if rows <= u32::MAX {
        lemma_rows_of_groups(rows);
    }
}

/// **`GridSample`** takes the maps and then the points, of which there is one for each output
/// pixel; it is told of channels, input and output sizes, whether corners are aligned, and whether
/// the border goes on outside.
pub proof fn law_grid_sample_is_started(node: NodeIr, x: Seq<i64>, grid: Seq<i64>, p: PlanView)
    requires
        grid_sample_of(node, x, grid) == Some(p),
    ensures
        x.len() == 4,
        grid.len() == 4,
        grid[0] == x[0],
        grid[3] == 2,
        ({
            let shape = seq![x[0], x[1], grid[1], grid[2]];
            let n = volume_of(shape)->Some_0;
            let d = the_run(p);
            &&& product(shape) >= 0 ==> n == x[0] * x[1] * grid[1] * grid[2]
            &&& one_run(p, n)
            &&& fresh_words(p.outputs[0], FLOAT, shape, n)
            &&& n > 0 ==> {
                &&& d.kernel == Kernel::GridSample
                &&& d.slots == seq![Slot::Input(0), Slot::Input(1), Slot::Output(0)]
                &&& d.push.len() == 9
                &&& told(d.push, 0, n)
                &&& told(d.push, 1, x[1] as int)
                &&& told(d.push, 2, x[2] as int)
                &&& told(d.push, 3, x[3] as int)
                &&& told(d.push, 4, grid[1] as int)
                &&& told(d.push, 5, grid[2] as int)
                &&& told(d.push, 6, node.int_attr("align_corners"@, 0) as int)
                &&& told_whether(
                    d.push,
                    7,
                    node.str_attr("padding_mode"@, "zeros"@) == "border"@,
                )
                &&& in_rows_of_groups(d, n, 8)
            }
        }),
{
    let shape = seq![x[0], x[1], grid[1], grid[2]];
    let n = volume_of(shape)->Some_0;
    crate::interp::conv_laws::lemma_product_of_four(shape);
    lemma_fresh(FLOAT, n);
    if n <= u32::MAX {
        lemma_rows_of_groups(n);
    }
}

/// **A resampling** keeps images and channels and gives maps of the new size; the kernel is told of
/// both sizes, of the way coordinates are formed, of the mode and the rounding, of the cubic
/// coefficient, and of the factors: those that are given, otherwise the ratios of the sizes.
pub proof fn law_resize_is_started(
    node: NodeIr,
    x: Seq<i64>,
    z: ResizeSizes,
    ratio: Scales,
    p: PlanView,
)
    requires
        resize_of(node, x, z, ratio) == Some(p),
        x.len() == 3 || x.len() == 4,
        x.len() == 3 ==> z.h_out == 1,
    ensures
        ({
            let full = seq![x[0], x[1], z.h_out, z.w_out];
            let n = volume_of(full)->Some_0;
            let d = the_run(p);
            let out = p.outputs[0];
            let coord = node.str_attr("coordinate_transformation_mode"@, "half_pixel"@);
            let mode = node.str_attr("mode"@, "nearest"@);
            let nearest = node.str_attr("nearest_mode"@, "round_prefer_floor"@);
            &&& product(full) >= 0 ==> n == x[0] * x[1] * z.h_out * z.w_out
            &&& one_run(p, n)
            &&& fresh_words(out, FLOAT, out.shape, n)
            &&& out.shape.len() == x.len()
            &&& out.shape[0] == x[0]
            &&& out.shape[1] == x[1]
            &&& out.shape.last() == z.w_out
            &&& x.len() == 4 ==> out.shape[2] == z.h_out
            &&& n > 0 ==> {
                &&& d.kernel == Kernel::Resize
                &&& d.slots == seq![Slot::Input(0), Slot::Output(0)]
                &&& d.push.len() == 12
                &&& told(d.push, 0, n)
                &&& told(d.push, 1, x[0] * x[1])
                &&& told(d.push, 2, z.h_in as int)
                &&& told(d.push, 3, z.w_in as int)
                &&& told(d.push, 4, z.h_out as int)
                &&& told(d.push, 5, z.w_out as int)
                &&& (d.push[6] == 0) == (coord == "half_pixel"@)
                &&& (d.push[6] == 1) == (coord == "asymmetric"@)
                &&& (d.push[6] == 2) == (coord == "align_corners"@)
                &&& (d.push[6] == 3) == (coord == "pytorch_half_pixel"@)
                &&& d.push[6] <= 3
                &&& (d.push[7] == 0) == (mode == "nearest"@)
                &&& (d.push[7] == 1) == (mode == "linear"@)
                &&& (d.push[7] == 2) == (mode == "cubic"@)
                &&& d.push[7] <= 2
                &&& (d.push[8] == 0) == (nearest == "round_prefer_floor"@)
                &&& (d.push[8] == 1) == (nearest == "round_prefer_ceil"@)
                &&& (d.push[8] == 2) == (nearest == "floor"@)
                &&& (d.push[8] == 3) == (nearest == "ceil"@)
                &&& d.push[8] <= 3
                &&& d.push[9] == node.float_attr("cubic_coeff_a"@, 0xbf40_0000)
                &&& z.scales matches Some(s) ==> d.push[10] == s.h && d.push[11] == s.w
                &&& z.scales is None ==> d.push[10] == ratio.h && d.push[11] == ratio.w
                &&& in_groups_of_256(d, n)
            }
        }),
{
    let full = seq![x[0], x[1], z.h_out, z.w_out];
    let n = volume_of(full)->Some_0;
    crate::interp::conv_laws::lemma_product_of_four(full);
    lemma_fresh(FLOAT, n);
    lemma_reach(n, 256);
    reveal_strlit("half_pixel");
    reveal_strlit("asymmetric");
    reveal_strlit("align_corners");
    reveal_strlit("pytorch_half_pixel");
    reveal_strlit("nearest");
    reveal_strlit("linear");
    reveal_strlit("cubic");
    reveal_strlit("round_prefer_floor");
    reveal_strlit("round_prefer_ceil");
    reveal_strlit("floor");
    reveal_strlit("ceil");
    assert("half_pixel"@[0] != "asymmetric"@[0]);
    assert("floor"@.len() == 5 && "ceil"@.len() == 4 && "cubic"@.len() == 5 && "linear"@.len() == 6
        && "nearest"@.len() == 7 && "align_corners"@.len() == 13 && "pytorch_half_pixel"@.len()
        == 18 && "round_prefer_floor"@.len() == 18 && "round_prefer_ceil"@.len() == 17
        && "half_pixel"@.len() == 10 && "asymmetric"@.len() == 10);
}

} // verus!
