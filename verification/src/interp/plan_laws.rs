//! Plans can be carried out: their commands name only buffers that there are.

use crate::graph::{NodeIr, TensorView};
use crate::host_ops::BinOp;
use crate::interp::attention::{attention_of, AttentionSizes};
use crate::interp::conv::{
    conv_plan_of, conv_transpose_plan_of, fill_commands, interleave_command, pack_command,
    phase_commands, phase_product, ConvTuning,
};
use crate::interp::elementwise::{cast_of, clip_of, gpu_binary_of, mapped_of};
use crate::interp::gather::{concat_plan_of, gather_plan_of, join_commands, JoinedView};
use crate::interp::int_product::{
    conv_integer_of, matmul_integer_of, IntOperands, IntTuning,
};
use crate::interp::layout::{pad_plan_of, slice_plan_of, split_of, split_plan_of, where_plan_of};
use crate::interp::norm::{
    batchnorm_of, layernorm_of, rmsnorm_of, skip_rmsnorm_of, softmax_of,
};
use crate::interp::product::{
    gemm_of, matmul_of, nbits_of, Extent, MatMulTuning, NbitsTuning,
};
use crate::interp::quantize::{dequantize_plan_of, dynamic_quantize_of, quantize_plan_of};
use crate::interp::reshape::reshaped_copy_of;
use crate::interp::sampling::{
    grid_sample_of, pool_of, reduce_of, resize_of, PoolKind, ResizeSizes, Scales,
};
use crate::interp::transpose::{kept_transpose_of, transpose_plan_of};
use crate::interp::window::GeomView;
use crate::plan::{CommandView, Kernel, PlanView, ReduceKind, Slot, Storage};
use vstd::prelude::*;

verus! {

/// Whether a slot stands for an input among `ins`, or for a buffer that the plan has.
pub open spec fn slot_ok(p: PlanView, ins: Set<usize>, s: Slot) -> bool {
    match s {
        Slot::Input(i) => ins.contains(i),
        Slot::Output(i) => i < p.outputs.len(),
        Slot::Scratch(i) => i < p.scratch.len(),
        Slot::Zero => true,
    }
}

pub open spec fn slots_ok(p: PlanView, ins: Set<usize>, slots: Seq<Slot>) -> bool {
    forall|k: int| 0 <= k < slots.len() ==> slot_ok(p, ins, #[trigger] slots[k])
}

/// Whether a command names only buffers that there are; one that runs once fills a buffer that
/// is kept.
pub open spec fn command_ok(p: PlanView, ins: Set<usize>, c: CommandView) -> bool {
    match c {
        CommandView::Run(d) => slots_ok(p, ins, d.slots),
        CommandView::Once(i, d) => 0 <= i < p.scratch.len() && p.scratch[i] is Kept && slots_ok(
            p,
            ins,
            d.slots,
        ),
        CommandView::Upload(i, _) => 0 <= i < p.scratch.len(),
        CommandView::Copy(a, b, _) => slot_ok(p, ins, a) && slot_ok(p, ins, b),
    }
}

/// Whether a plan that may read the inputs `ins` can be carried out: its commands name only
/// buffers that there are, and an output without a buffer of its own lies in one that is kept.
pub open spec fn plan_ok(p: PlanView, ins: Set<usize>) -> bool {
    &&& forall|k: int| 0 <= k < p.commands.len() ==> command_ok(p, ins, #[trigger] p.commands[k])
    &&& forall|k: int|
        0 <= k < p.outputs.len() ==> match (#[trigger] p.outputs[k]).storage {
            Storage::New(_) => true,
            Storage::Scratch(i) => i < p.scratch.len() && p.scratch[i as int] is Kept,
        }
}

/// Whether there is no plan, or one that can be carried out.
pub open spec fn sound(p: Option<PlanView>, ins: Set<usize>) -> bool {
    p matches Some(v) ==> plan_ok(v, ins)
}

/// One input, and another where the flag says so.
pub open spec fn with_optional(ins: Set<usize>, given: bool, i: usize) -> Set<usize> {
    if given {
        ins.insert(i)
    } else {
        ins
    }
}

// --- elements, norms, samples -----------------------------------------------------------

/// A plan over the elements of one input can be carried out with it.
pub proof fn law_mapped_plan(kernel: Kernel, shape: Seq<i64>, n: int, rest: Seq<u32>)
    ensures
        sound(mapped_of(kernel, shape, n, rest), set![0usize]),
{
}

/// A plan that holds elements against bounds can be carried out with its input.
pub proof fn law_clip_plan(
    node: NodeIr,
    shape: Seq<i64>,
    n: int,
    lo: Option<Seq<u32>>,
    hi: Option<Seq<u32>>,
)
    ensures
        sound(clip_of(node, shape, n, lo, hi), set![0usize]),
{
}

/// A plan that changes the type of elements can be carried out with its input.
pub proof fn law_cast_plan(from: i32, to: i32, shape: Seq<i64>, n: int)
    ensures
        sound(cast_of(from, to, shape, n), set![0usize]),
{
}

/// A plan of arithmetic can be carried out with its two inputs.
pub proof fn law_binary_plan(op: BinOp, a: Seq<i64>, b: Seq<i64>)
    ensures
        sound(gpu_binary_of(op, a, b), set![0usize, 1usize]),
{
}

/// A plan of a softmax can be carried out with its input.
pub proof fn law_softmax_plan(node: NodeIr, shape: Seq<i64>, n: int)
    ensures
        sound(softmax_of(node, shape, n), set![0usize]),
{
}

/// A plan of a layer normalization can be carried out with its input, its scale, and its bias
/// where it has one.
pub proof fn law_layernorm_plan(
    node: NodeIr,
    shape: Seq<i64>,
    n: int,
    scale_count: int,
    has_bias: bool,
)
    ensures
        sound(
            layernorm_of(node, shape, n, scale_count, has_bias),
            with_optional(set![0usize, 1usize], has_bias, 2),
        ),
{
}

/// A plan of a normalization by the root mean square can be carried out with its input and its
/// scale.
pub proof fn law_rmsnorm_plan(node: NodeIr, shape: Seq<i64>, n: int, scale_count: int)
    ensures
        sound(rmsnorm_of(node, shape, n, scale_count), set![0usize, 1usize]),
{
}

/// The same, where something is added first.
pub proof fn law_skip_rmsnorm_plan(
    node: NodeIr,
    shape: Seq<i64>,
    n: int,
    skip: Seq<i64>,
    scale_count: int,
)
    ensures
        sound(skip_rmsnorm_of(node, shape, n, skip, scale_count), set![0usize, 1usize, 2usize]),
{
}

/// A plan of a batch normalization can be carried out with its five inputs.
pub proof fn law_batchnorm_plan(node: NodeIr, shape: Seq<i64>, n: int, counts: Seq<usize>)
    ensures
        sound(
            batchnorm_of(node, shape, n, counts),
            set![0usize, 1usize, 2usize, 3usize, 4usize],
        ),
{
}

/// A plan of a pooling can be carried out with its input.
pub proof fn law_pool_plan(node: NodeIr, kind: PoolKind, x: Seq<i64>)
    ensures
        sound(pool_of(node, kind, x), set![0usize]),
{
}

/// A plan of a reduction can be carried out with its input.
pub proof fn law_reduce_plan(node: NodeIr, kind: ReduceKind, shape: Seq<i64>, n: int)
    ensures
        sound(reduce_of(node, kind, shape, n), set![0usize]),
{
}

/// A plan of a sampling can be carried out with its input and its grid.
pub proof fn law_grid_sample_plan(node: NodeIr, x: Seq<i64>, grid: Seq<i64>)
    ensures
        sound(grid_sample_of(node, x, grid), set![0usize, 1usize]),
{
}

/// A plan of a resampling can be carried out with its input.
pub proof fn law_resize_plan(node: NodeIr, x: Seq<i64>, z: ResizeSizes, ratio: Scales)
    ensures
        sound(resize_of(node, x, z, ratio), set![0usize]),
{
}

/// A plan of a dynamic quantization can be carried out with its input.
pub proof fn law_dynamic_quantize_plan(shape: Seq<i64>, n: int)
    ensures
        sound(dynamic_quantize_of(shape, n), set![0usize]),
{
}

/// A plan of a dequantization can be carried out with its input, its scale, and its zero point
/// where it has one.
pub proof fn law_dequantize_plan(
    node: NodeIr,
    x: Seq<i64>,
    dtype: i32,
    scale: Seq<i64>,
    has_zero: bool,
)
    ensures
        sound(
            dequantize_plan_of(node, x, dtype, scale, has_zero),
            with_optional(set![0usize, 1usize], has_zero, 2),
        ),
{
}

/// A plan of a quantization can be carried out with its input, its scale, and its zero point where
/// it has one.
pub proof fn law_quantize_plan(node: NodeIr, x: Seq<i64>, scale: Seq<i64>, zero: Option<i32>)
    ensures
        sound(
            quantize_plan_of(node, x, scale, zero),
            with_optional(set![0usize, 1usize], zero is Some, 2),
        ),
{
}

// --- movement ---------------------------------------------------------------------------

/// A plan of a copy with a new shape can be carried out with its input.
pub proof fn law_reshape_plan(dtype: i32, n: int, shape: Seq<i64>)
    ensures
        sound(reshaped_copy_of(dtype, n, shape), set![0usize]),
{
}

/// A plan of a slice can be carried out with its input.
pub proof fn law_slice_plan(input: Seq<i64>, out: Seq<i64>, start: Seq<i64>, step: Seq<i64>)
    ensures
        sound(slice_plan_of(input, out, start, step), set![0usize]),
{
}

proof fn lemma_split_plan(shape: Seq<i64>, axis: int, sizes: Seq<i64>, k: int)
    requires
        0 <= k <= usize::MAX,
    ensures
        sound(split_plan_of(shape, axis, sizes, k), set![0usize]),
        split_plan_of(shape, axis, sizes, k) matches Some(p) ==> p.outputs.len() == k
            && p.scratch.len() == k,
    decreases k,
{
    if k > 0 {
        lemma_split_plan(shape, axis, sizes, k - 1);
        match (split_plan_of(shape, axis, sizes, k), split_plan_of(shape, axis, sizes, k - 1)) {
            (Some(p), Some(rest)) => {
                let ins = set![0usize];
                assert forall|c: int| 0 <= c < p.commands.len() implies command_ok(
                    p,
                    ins,
                    #[trigger] p.commands[c],
                ) by {
                    if c < rest.commands.len() {
                        assert(p.commands[c] == rest.commands[c]);
                        assert(command_ok(rest, ins, rest.commands[c]));
                    }
                }
            },
            _ => {},
        }
    }
}

/// A plan of a split can be carried out with its input.
pub proof fn law_split_plan(shape: Seq<i64>, axis: int, sizes: Seq<i64>)
    requires
        sizes.len() <= usize::MAX,
    ensures
        sound(split_of(shape, axis, sizes), set![0usize]),
{
    lemma_split_plan(shape, axis, sizes, sizes.len() as int);
}

/// A plan of a padding can be carried out with its input.
pub proof fn law_pad_plan(shape: Seq<i64>, begins: Seq<i64>, ends: Seq<i64>, value: u32)
    ensures
        sound(pad_plan_of(shape, begins, ends, value), set![0usize]),
{
}

/// A plan of a choice can be carried out with its three inputs.
pub proof fn law_where_plan(c: Seq<i64>, x: Seq<i64>, y: Seq<i64>)
    ensures
        sound(where_plan_of(c, x, y), set![0usize, 1usize, 2usize]),
{
}

/// A plan of a gather can be carried out with its data; the indices are uploaded.
pub proof fn law_gather_plan(data: Seq<i64>, axis: i64, index_shape: Seq<i64>, indices: Seq<i64>)
    ensures
        sound(gather_plan_of(data, axis, index_shape, indices), set![0usize]),
{
}

/// The inputs that are joined.
pub open spec fn joined_inputs(parts: Seq<JoinedView>) -> Set<usize> {
    Set::new(|i: usize| exists|k: int| 0 <= k < parts.len() && (#[trigger] parts[k]).input == i)
}

proof fn lemma_join_commands(
    p: PlanView,
    parts: Seq<JoinedView>,
    axis: int,
    inner: int,
    size: int,
    k: int,
)
    requires
        0 <= k <= parts.len(),
        p.outputs.len() > 0,
    ensures
        forall|c: int|
            0 <= c < join_commands(parts, axis, inner, size, k).len() ==> command_ok(
                p,
                joined_inputs(parts),
                #[trigger] join_commands(parts, axis, inner, size, k)[c],
            ),
    decreases k,
{
    if k > 0 {
        lemma_join_commands(p, parts, axis, inner, size, k - 1);
        let ins = joined_inputs(parts);
        assert(parts[k - 1].input == parts[k - 1].input);
        assert(ins.contains(parts[k - 1].input));
        let rest = join_commands(parts, axis, inner, size, k - 1);
        let all = join_commands(parts, axis, inner, size, k);
        assert forall|c: int| 0 <= c < all.len() implies command_ok(p, ins, #[trigger] all[c]) by {
            if c < rest.len() {
                assert(all[c] == rest[c]);
            }
        }
    }
}

/// A plan of a join can be carried out with the inputs that are joined.
pub proof fn law_concat_plan(parts: Seq<JoinedView>, axis: i64)
    ensures
        sound(concat_plan_of(parts, axis), joined_inputs(parts)),
{
    match concat_plan_of(parts, axis) {
        Some(p) => {
            let a = crate::interp::norm::axis_of(axis, parts[0].shape.len() as int)->0;
            let size = crate::interp::gather::joined_size(parts, a, parts.len() as int);
            let inner = crate::num::volume_of(parts[0].shape.skip(a + 1))->0;
            lemma_join_commands(p, parts, a, inner, size, parts.len() as int);
        },
        None => {},
    }
}

/// A plan of a transpose can be carried out with its input.
pub proof fn law_transpose_plan(dtype: i32, shape: Seq<i64>, perm: Seq<usize>)
    ensures
        sound(transpose_plan_of(dtype, shape, perm), set![0usize]),
{
}

/// A plan of a transpose that is kept needs no input on the device.
pub proof fn law_kept_transpose_plan(
    name: Seq<char>,
    dtype: i32,
    shape: Seq<i64>,
    data: Option<Seq<u8>>,
)
    ensures
        sound(kept_transpose_of(name, dtype, shape, data), Set::empty()),
{
}

// --- products ---------------------------------------------------------------------------

/// A plan of a convolution can be carried out with its input, its weights, and its bias where it
/// has one.
pub proof fn law_conv_plan(g: GeomView, has_bias: bool, t: ConvTuning)
    ensures
        sound(conv_plan_of(g, has_bias, t), with_optional(set![0usize, 1usize], has_bias, 2)),
{
}

/// A plan of a product can be carried out with its two inputs.
pub proof fn law_matmul_plan(a: Seq<i64>, b: Seq<i64>, t: MatMulTuning)
    ensures
        sound(matmul_of(a, b, t), set![0usize, 1usize]),
{
}

/// A plan of a product with an addend can be carried out with its inputs.
pub proof fn law_gemm_plan(node: NodeIr, a: Seq<i64>, b: Seq<i64>, c: Option<Seq<i64>>, tile: u32)
    ensures
        sound(gemm_of(node, a, b, c, tile), with_optional(set![0usize, 1usize], c is Some, 2)),
{
}

/// A plan of a product with four-bit weights can be carried out with its input, the weights and
/// the scales.
pub proof fn law_nbits_plan(
    node: NodeIr,
    a: Seq<i64>,
    a_count: usize,
    w: Extent,
    scales: Extent,
    t: NbitsTuning,
)
    ensures
        sound(nbits_of(node, a, a_count, w, scales, t), set![0usize, 1usize, 2usize]),
{
}

/// A plan of attention can be carried out with queries, keys, values, what is past, and the
/// rotations.
pub proof fn law_attention_plan(node: NodeIr, s: AttentionSizes, scale: u32)
    ensures
        sound(
            attention_of(node, s, scale),
            set![0usize, 1usize, 2usize, 3usize, 4usize, 7usize, 8usize],
        ),
{
}

/// A plan of an integer product can be carried out with its first operand and both zero points;
/// the second operand is packed.
pub proof fn law_matmul_integer_plan(
    a: Seq<i64>,
    b: Seq<i64>,
    a_signed: bool,
    b_signed: bool,
    b_name: Seq<char>,
    constant: bool,
    source: Option<TensorView>,
    t: IntTuning,
)
    ensures
        sound(
            matmul_integer_of(a, b, a_signed, b_signed, b_name, constant, source, t),
            set![0usize, 2usize, 3usize],
        ),
{
}

/// A plan of an integer convolution can be carried out with its input, its weights, and the zero
/// points that it has.
pub proof fn law_conv_integer_plan(g: GeomView, o: IntOperands, w_name: Seq<char>, t: IntTuning)
    ensures
        sound(
            conv_integer_of(g, o, w_name, t),
            with_optional(with_optional(set![0usize, 1usize], o.x_zero, 2), o.w_zero, 3),
        ),
{
}

proof fn lemma_phase_commands(p: PlanView, g: GeomView, has_bias: bool, tile: u32, k: int)
    requires
        0 <= k < p.scratch.len() <= usize::MAX,
        p.outputs.len() > 0,
        forall|i: int| 1 <= i <= k ==> #[trigger] p.scratch[i] is Kept,
    ensures
        forall|c: int|
            0 <= c < phase_commands(g, has_bias, tile, k).len() ==> command_ok(
                p,
                with_optional(set![0usize, 1usize], has_bias, 2),
                #[trigger] phase_commands(g, has_bias, tile, k)[c],
            ),
    decreases k,
{
    if k > 0 {
        let ins = with_optional(set![0usize, 1usize], has_bias, 2);
        lemma_phase_commands(p, g, has_bias, tile, k - 1);
        let rest = phase_commands(g, has_bias, tile, k - 1);
        let all = phase_commands(g, has_bias, tile, k);
        assert(p.scratch[1 + (k - 1)] is Kept);
        assert(command_ok(p, ins, pack_command(g, k - 1)));
        assert(command_ok(p, ins, phase_product(g, has_bias, tile, k - 1)));
        assert(command_ok(p, ins, interleave_command(g, k - 1)));
        assert forall|c: int| 0 <= c < all.len() implies command_ok(p, ins, #[trigger] all[c]) by {
            if c < rest.len() {
                assert(all[c] == rest[c]);
            } else if c == rest.len() {
                assert(all[c] == pack_command(g, k - 1));
            } else if c == rest.len() + 1 {
                assert(all[c] == phase_product(g, has_bias, tile, k - 1));
            } else {
                assert(all[c] == interleave_command(g, k - 1));
            }
        }
    }
}

/// A plan of a transposed convolution can be carried out with its input, its weights, and its bias
/// where it has one.
pub proof fn law_conv_transpose_plan(
    g: GeomView,
    has_bias: bool,
    phases: Option<(Seq<char>, u32)>,
)
    ensures
        sound(
            conv_transpose_plan_of(g, has_bias, phases),
            with_optional(set![0usize, 1usize], has_bias, 2),
        ),
{
    let ins = with_optional(set![0usize, 1usize], has_bias, 2);
    if g.total > 0 && phases is Some {
        match conv_transpose_plan_of(g, has_bias, phases) {
            Some(p) => {
                let k = g.kh * g.kw;
                assert(k >= 0) by (nonlinear_arith)
                    requires
                        k == g.kh * g.kw,
                        g.kh >= 0,
                        g.kw >= 0,
                ;
                lemma_phase_commands(p, g, has_bias, phases->Some_0.1, k);
                let fill = fill_commands(g, has_bias);
                let rest = phase_commands(g, has_bias, phases->Some_0.1, k);
                assert forall|c: int| 0 <= c < p.commands.len() implies command_ok(
                    p,
                    ins,
                    #[trigger] p.commands[c],
                ) by {
                    if c < fill.len() {
                        assert(p.commands[c] == fill[c]);
                    } else {
                        assert(p.commands[c] == rest[c - fill.len()]);
                    }
                }
            },
            None => {},
        }
    }
}

} // verus!
