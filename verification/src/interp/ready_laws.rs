//! A plan that a node asks for can be carried out: the inputs that it reads are on the device.

use crate::cache::KernelCache;
use crate::execution::ExecutionEnv;
use crate::graph::NodeIr;
use crate::host_ops::arith::{BinOp, CmpOp};
use crate::host_ops::HostTensor;
use crate::interp::carry_out::{slot_handle, Made};
use crate::interp::cut_steps::{
    concat_step, given_inputs, joined_parts, joined_wants, slice_step, split_step,
};
use crate::interp::dispatch::{operator_of, operator_work, work_of, Limits, Operator};
use crate::interp::elementwise::{gelu_of, LEAKY_SLOPE};
use crate::interp::host_steps::{
    compare_step, constant_of_shape_step, constant_step, cumsum_step, expand_step, floor_step,
    gather_elements_step, if_step, mod_step, not_step, range_step, scatter_step, tile_step,
    top_k_step,
};
use crate::interp::map_steps::{
    binary_step, clip_step, conv_integer_step, conv_step, conv_transpose_step, dequantize_step,
    dequantize_wants, grid_sample_step, limit_in, pool_step, quantize_step, quantize_wants,
    reduce_step, resize_step,
};
use crate::interp::move_steps::{
    cast_step, flatten_step, gather_step, kept_step, moved, pad_step, reshape_step, shape_step,
    squeeze_step, transpose_step, unsqueeze_step, where_step,
};
use crate::interp::plan_laws::{
    command_ok, joined_inputs, law_batchnorm_plan, law_binary_plan, law_cast_plan, law_clip_plan,
    law_concat_plan, law_dequantize_plan, law_dynamic_quantize_plan, law_gather_plan, law_gemm_plan,
    law_grid_sample_plan, law_kept_transpose_plan, law_layernorm_plan, law_mapped_plan,
    law_pad_plan, law_pool_plan, law_quantize_plan, law_reduce_plan, law_reshape_plan,
    law_rmsnorm_plan, law_skip_rmsnorm_plan, law_slice_plan, law_softmax_plan, law_split_plan,
    law_transpose_plan, law_where_plan, plan_ok, slot_ok, with_optional,
};
use crate::interp::sampling::PoolKind;
use crate::interp::steps::{
    attention_step, batchnorm_step, dynamic_quantize_step, gemm_step, layernorm_step,
    matmul_integer_step, matmul_step, missing, nbits_step, rmsnorm_step, skip_rmsnorm_step,
    softmax_step, unary_step,
};
use crate::interp::work::{device_in, dtype_in, shape_in, WorkView};
use crate::names::NameMap;
use crate::plan::{CommandView, Kernel, PlanView, ReduceKind, Slot, UnaryOp};
use vstd::prelude::*;

verus! {

/// The inputs of a node that are on the device.
pub open spec fn placed(env: ExecutionEnv, node: NodeIr) -> Set<usize> {
    Set::new(|i: usize| device_in(env, node, i as int) is Some)
}

/// Whether work, where it is a plan, can be carried out with what is on the device.
pub open spec fn runnable(env: ExecutionEnv, node: NodeIr, w: Option<WorkView>) -> bool {
    w matches Some(WorkView::Plan(p)) ==> plan_ok(p, placed(env, node))
}

proof fn lemma_more(p: PlanView, a: Set<usize>, b: Set<usize>)
    requires
        plan_ok(p, a),
        a.subset_of(b),
    ensures
        plan_ok(p, b),
{
    assert forall|k: int| 0 <= k < p.commands.len() implies command_ok(
        p,
        b,
        #[trigger] p.commands[k],
    ) by {
        assert(command_ok(p, a, p.commands[k]));
        match p.commands[k] {
            CommandView::Run(d) => {
                assert forall|s: int| 0 <= s < d.slots.len() implies slot_ok(
                    p,
                    b,
                    #[trigger] d.slots[s],
                ) by {
                    assert(slot_ok(p, a, d.slots[s]));
                }
            },
            CommandView::Once(_, d) => {
                assert forall|s: int| 0 <= s < d.slots.len() implies slot_ok(
                    p,
                    b,
                    #[trigger] d.slots[s],
                ) by {
                    assert(slot_ok(p, a, d.slots[s]));
                }
            },
            _ => {},
        }
    }
}

proof fn lemma_present(env: ExecutionEnv, node: NodeIr, wants: Seq<(usize, bool)>)
    requires
        missing(env, node, wants) is None,
    ensures
        forall|k: int|
            0 <= k < wants.len() ==> device_in(env, node, (#[trigger] wants[k]).0 as int) is Some,
    decreases wants.len(),
{
    if wants.len() > 0 {
        let rest = wants.drop_last();
        lemma_present(env, node, rest);
        assert forall|k: int| 0 <= k < wants.len() implies device_in(
            env,
            node,
            (#[trigger] wants[k]).0 as int,
        ) is Some by {
            if k < rest.len() {
                assert(rest[k] == wants[k]);
            }
        }
    }
}

/// Where nothing of the first two or three inputs is missing they are there.
proof fn lemma_first(env: ExecutionEnv, node: NodeIr, wants: Seq<(usize, bool)>, n: int)
    requires
        missing(env, node, wants) is None,
        0 <= n <= wants.len(),
        forall|k: int| 0 <= k < n ==> (#[trigger] wants[k]).0 == k,
    ensures
        forall|k: int| 0 <= k < n ==> #[trigger] device_in(env, node, k) is Some,
{
    lemma_present(env, node, wants);
    assert forall|k: int| 0 <= k < n implies #[trigger] device_in(env, node, k) is Some by {
        assert(wants[k].0 == k);
    }
}

// --- operators --------------------------------------------------------------------------

proof fn lemma_unary(env: ExecutionEnv, node: NodeIr, op: UnaryOp)
    ensures
        runnable(env, node, unary_step(env, node, op)),
{
    match unary_step(env, node, op) {
        Some(WorkView::Plan(p)) => {
            let d = device_in(env, node, 0)->0;
            law_mapped_plan(Kernel::Unary(op), d.shape@, d.elem_count as int, Seq::empty());
            lemma_more(p, set![0usize], placed(env, node));
        },
        _ => {},
    }
}

proof fn lemma_softmax(env: ExecutionEnv, node: NodeIr)
    ensures
        runnable(env, node, softmax_step(env, node)),
{
    match softmax_step(env, node) {
        Some(WorkView::Plan(p)) => {
            let d = device_in(env, node, 0)->0;
            law_softmax_plan(node, d.shape@, d.elem_count as int);
            lemma_more(p, set![0usize], placed(env, node));
        },
        _ => {},
    }
}

proof fn lemma_dynamic_quantize(env: ExecutionEnv, node: NodeIr)
    ensures
        runnable(env, node, dynamic_quantize_step(env, node)),
{
    match dynamic_quantize_step(env, node) {
        Some(WorkView::Plan(p)) => {
            let d = device_in(env, node, 0)->0;
            law_dynamic_quantize_plan(d.shape@, d.elem_count as int);
            lemma_more(p, set![0usize], placed(env, node));
        },
        _ => {},
    }
}

proof fn lemma_layernorm(env: ExecutionEnv, node: NodeIr)
    ensures
        runnable(env, node, layernorm_step(env, node)),
{
    match layernorm_step(env, node) {
        Some(WorkView::Plan(p)) => {
            let wants = if node.given(2) {
                seq![(0usize, true), (1usize, true), (2usize, true)]
            } else {
                seq![(0usize, true), (1usize, true)]
            };
            lemma_first(env, node, wants, wants.len() as int);
            let x = device_in(env, node, 0)->0;
            let s = device_in(env, node, 1)->0;
            law_layernorm_plan(
                node,
                x.shape@,
                x.elem_count as int,
                s.elem_count as int,
                node.given(2),
            );
            lemma_more(
                p,
                with_optional(set![0usize, 1usize], node.given(2), 2),
                placed(env, node),
            );
        },
        _ => {},
    }
}

proof fn lemma_rmsnorm(env: ExecutionEnv, node: NodeIr)
    ensures
        runnable(env, node, rmsnorm_step(env, node)),
{
    match rmsnorm_step(env, node) {
        Some(WorkView::Plan(p)) => {
            lemma_first(env, node, seq![(0usize, true), (1usize, true)], 2);
            let x = device_in(env, node, 0)->0;
            let s = device_in(env, node, 1)->0;
            law_rmsnorm_plan(node, x.shape@, x.elem_count as int, s.elem_count as int);
            lemma_more(p, set![0usize, 1usize], placed(env, node));
        },
        _ => {},
    }
}

proof fn lemma_skip_rmsnorm(env: ExecutionEnv, node: NodeIr)
    ensures
        runnable(env, node, skip_rmsnorm_step(env, node)),
{
    match skip_rmsnorm_step(env, node) {
        Some(WorkView::Plan(p)) => {
            lemma_first(env, node, seq![(0usize, true), (1usize, true), (2usize, true)], 3);
            let x = device_in(env, node, 0)->0;
            let k = device_in(env, node, 1)->0;
            let s = device_in(env, node, 2)->0;
            law_skip_rmsnorm_plan(
                node,
                x.shape@,
                x.elem_count as int,
                k.shape@,
                s.elem_count as int,
            );
            lemma_more(p, set![0usize, 1usize, 2usize], placed(env, node));
        },
        _ => {},
    }
}

proof fn lemma_batchnorm(env: ExecutionEnv, node: NodeIr)
    ensures
        runnable(env, node, batchnorm_step(env, node)),
{
    match batchnorm_step(env, node) {
        Some(WorkView::Plan(p)) => {
            let wants = seq![
                (0usize, true),
                (1usize, true),
                (2usize, true),
                (3usize, true),
                (4usize, true),
            ];
            lemma_first(env, node, wants, 5);
            let x = device_in(env, node, 0)->0;
            law_batchnorm_plan(
                node,
                x.shape@,
                x.elem_count as int,
                seq![
                    device_in(env, node, 1)->Some_0.elem_count,
                    device_in(env, node, 2)->Some_0.elem_count,
                    device_in(env, node, 3)->Some_0.elem_count,
                    device_in(env, node, 4)->Some_0.elem_count,
                ],
            );
            lemma_more(p, set![0usize, 1usize, 2usize, 3usize, 4usize], placed(env, node));
        },
        _ => {},
    }
}

proof fn lemma_gemm(env: ExecutionEnv, node: NodeIr, tile: u32)
    ensures
        runnable(env, node, gemm_step(env, node, tile)),
{
    match gemm_step(env, node, tile) {
        Some(WorkView::Plan(p)) => {
            let wants = if node.given(2) {
                seq![(0usize, true), (1usize, true), (2usize, true)]
            } else {
                seq![(0usize, true), (1usize, true)]
            };
            let c = if node.given(2) {
                shape_in(env, node, 2)
            } else {
                None
            };
            lemma_first(env, node, wants, wants.len() as int);
            law_gemm_plan(node, shape_in(env, node, 0)->0, shape_in(env, node, 1)->0, c, tile);
            lemma_more(
                p,
                with_optional(set![0usize, 1usize], c is Some, 2),
                placed(env, node),
            );
        },
        _ => {},
    }
}

proof fn lemma_pool(env: ExecutionEnv, node: NodeIr, kind: PoolKind)
    ensures
        runnable(env, node, pool_step(env, node, kind)),
{
    match pool_step(env, node, kind) {
        Some(WorkView::Plan(p)) => {
            lemma_first(env, node, seq![(0usize, true)], 1);
            law_pool_plan(node, kind, shape_in(env, node, 0)->0);
            lemma_more(p, set![0usize], placed(env, node));
        },
        _ => {},
    }
}

proof fn lemma_grid_sample(env: ExecutionEnv, node: NodeIr)
    ensures
        runnable(env, node, grid_sample_step(env, node)),
{
    match grid_sample_step(env, node) {
        Some(WorkView::Plan(p)) => {
            lemma_first(env, node, seq![(0usize, true), (1usize, true)], 2);
            law_grid_sample_plan(node, shape_in(env, node, 0)->0, shape_in(env, node, 1)->0);
            lemma_more(p, set![0usize, 1usize], placed(env, node));
        },
        _ => {},
    }
}

proof fn lemma_dequantize(env: ExecutionEnv, node: NodeIr)
    ensures
        runnable(env, node, dequantize_step(env, node)),
{
    match dequantize_step(env, node) {
        Some(WorkView::Plan(p)) => {
            lemma_first(env, node, dequantize_wants(node), dequantize_wants(node).len() as int);
            law_dequantize_plan(
                node,
                shape_in(env, node, 0)->0,
                dtype_in(env, node, 0)->0,
                shape_in(env, node, 1)->0,
                node.given(2),
            );
            lemma_more(
                p,
                with_optional(set![0usize, 1usize], node.given(2), 2),
                placed(env, node),
            );
        },
        _ => {},
    }
}

proof fn lemma_quantize(env: ExecutionEnv, node: NodeIr)
    ensures
        runnable(env, node, quantize_step(env, node)),
{
    match quantize_step(env, node) {
        Some(WorkView::Plan(p)) => {
            let zero = if node.given(2) {
                dtype_in(env, node, 2)
            } else {
                None
            };
            lemma_first(env, node, quantize_wants(node), quantize_wants(node).len() as int);
            law_quantize_plan(
                node,
                shape_in(env, node, 0)->0,
                shape_in(env, node, 1)->0,
                zero,
            );
            lemma_more(
                p,
                with_optional(set![0usize, 1usize], zero is Some, 2),
                placed(env, node),
            );
        },
        _ => {},
    }
}

proof fn lemma_binary(
    env: ExecutionEnv,
    fetched: NameMap<HostTensor>,
    node: NodeIr,
    op: BinOp,
)
    ensures
        runnable(env, node, binary_step(env, fetched, node, op)),
{
    match binary_step(env, fetched, node, op) {
        Some(WorkView::Plan(p)) => {
            lemma_first(env, node, seq![(0usize, true), (1usize, true)], 2);
            law_binary_plan(
                op,
                device_in(env, node, 0)->Some_0.shape@,
                device_in(env, node, 1)->Some_0.shape@,
            );
            lemma_more(p, set![0usize, 1usize], placed(env, node));
        },
        _ => {},
    }
}

proof fn lemma_clip(env: ExecutionEnv, fetched: NameMap<HostTensor>, node: NodeIr)
    ensures
        runnable(env, node, clip_step(env, fetched, node)),
{
    match clip_step(env, fetched, node) {
        Some(WorkView::Plan(p)) => {
            let d = device_in(env, node, 0)->0;
            let lo = limit_in(env, fetched, node, 1, "min"@)->Here_0;
            let hi = limit_in(env, fetched, node, 2, "max"@)->Here_0;
            law_clip_plan(node, d.shape@, d.elem_count as int, Some(lo), Some(hi));
            lemma_more(p, set![0usize], placed(env, node));
        },
        _ => {},
    }
}

proof fn lemma_reduce(
    env: ExecutionEnv,
    fetched: NameMap<HostTensor>,
    node: NodeIr,
    kind: ReduceKind,
)
    ensures
        runnable(env, node, reduce_step(env, fetched, node, kind)),
{
    match reduce_step(env, fetched, node, kind) {
        Some(WorkView::Plan(p)) => {
            let d = device_in(env, node, 0)->0;
            law_reduce_plan(node, kind, shape_in(env, node, 0)->0, d.elem_count as int);
            lemma_more(p, set![0usize], placed(env, node));
        },
        _ => {},
    }
}

proof fn lemma_moved(
    env: ExecutionEnv,
    fetched: NameMap<HostTensor>,
    node: NodeIr,
    shape: Option<Seq<i64>>,
)
    ensures
        runnable(env, node, moved(env, fetched, node, shape)),
{
    match moved(env, fetched, node, shape) {
        Some(WorkView::Plan(p)) => {
            let d = device_in(env, node, 0)->0;
            law_reshape_plan(d.dtype, d.elem_count as int, shape->0);
            lemma_more(p, set![0usize], placed(env, node));
        },
        _ => {},
    }
}

proof fn lemma_new_shapes(env: ExecutionEnv, fetched: NameMap<HostTensor>, node: NodeIr)
    ensures
        runnable(env, node, reshape_step(env, fetched, node)),
        runnable(env, node, flatten_step(env, fetched, node)),
        runnable(env, node, unsqueeze_step(env, fetched, node)),
        runnable(env, node, squeeze_step(env, fetched, node)),
{
    assert forall|shape: Option<Seq<i64>>| runnable(
        env,
        node,
        #[trigger] moved(env, fetched, node, shape),
    ) by {
        lemma_moved(env, fetched, node, shape);
    }
}

proof fn lemma_cast(env: ExecutionEnv, fetched: NameMap<HostTensor>, node: NodeIr)
    ensures
        runnable(env, node, cast_step(env, fetched, node)),
{
    match cast_step(env, fetched, node) {
        Some(WorkView::Plan(p)) => {
            let d = device_in(env, node, 0)->0;
            let from = dtype_in(env, node, 0)->0;
            let to = node.opt_int_attr("to"@)->0 as i32;
            law_cast_plan(from, to, d.shape@, d.elem_count as int);
            lemma_more(p, set![0usize], placed(env, node));
        },
        _ => {},
    }
}

proof fn lemma_kept(
    env: ExecutionEnv,
    cache: KernelCache,
    node: NodeIr,
    dtype: i32,
    shape: Seq<i64>,
)
    ensures
        runnable(env, node, kept_step(env, cache, node, dtype, shape)),
{
    assert forall|data: Option<Seq<u8>>| runnable(
        env,
        node,
        crate::interp::work::plan_work(
            #[trigger] crate::interp::transpose::kept_transpose_of(
                node.input_name(0),
                dtype,
                shape,
                data,
            ),
        ),
    ) by {
        law_kept_transpose_plan(node.input_name(0), dtype, shape, data);
        match crate::interp::transpose::kept_transpose_of(node.input_name(0), dtype, shape, data) {
            Some(p) => {
                lemma_more(p, Set::empty(), placed(env, node));
            },
            None => {},
        }
    }
}

proof fn lemma_transpose(
    env: ExecutionEnv,
    cache: KernelCache,
    fetched: NameMap<HostTensor>,
    node: NodeIr,
)
    ensures
        runnable(env, node, transpose_step(env, cache, fetched, node)),
{
    match (shape_in(env, node, 0), dtype_in(env, node, 0)) {
        (Some(s), Some(dtype)) => match crate::interp::transpose::perm_of(node, s.len() as int) {
            None => {},
            Some(perm) => {
                lemma_kept(env, cache, node, dtype, s);
                law_transpose_plan(dtype, s, perm);
                match crate::interp::transpose::transpose_plan_of(dtype, s, perm) {
                    Some(p) => if device_in(env, node, 0) is Some {
                        lemma_more(p, set![0usize], placed(env, node));
                    },
                    None => {},
                }
            },
        },
        _ => {},
    }
}

proof fn lemma_gather(env: ExecutionEnv, fetched: NameMap<HostTensor>, node: NodeIr)
    ensures
        runnable(env, node, gather_step(env, fetched, node)),
{
    assert forall|s: Seq<i64>, axis: i64, t: Seq<i64>, v: Seq<i64>|
        device_in(env, node, 0) is Some implies runnable(
        env,
        node,
        crate::interp::work::plan_work(
            #[trigger] crate::interp::gather::gather_plan_of(s, axis, t, v),
        ),
    ) by {
        law_gather_plan(s, axis, t, v);
        match crate::interp::gather::gather_plan_of(s, axis, t, v) {
            Some(p) => {
                lemma_more(p, set![0usize], placed(env, node));
            },
            None => {},
        }
    }
}

proof fn lemma_where(env: ExecutionEnv, fetched: NameMap<HostTensor>, node: NodeIr)
    ensures
        runnable(env, node, where_step(env, fetched, node)),
{
    match where_step(env, fetched, node) {
        Some(WorkView::Plan(p)) => {
            lemma_first(env, node, seq![(0usize, false), (1usize, true), (2usize, true)], 3);
            law_where_plan(
                shape_in(env, node, 0)->0,
                shape_in(env, node, 1)->0,
                shape_in(env, node, 2)->0,
            );
            lemma_more(p, set![0usize, 1usize, 2usize], placed(env, node));
        },
        _ => {},
    }
}

proof fn lemma_pad(env: ExecutionEnv, fetched: NameMap<HostTensor>, node: NodeIr)
    ensures
        runnable(env, node, pad_step(env, fetched, node)),
{
    assert forall|s: Seq<i64>, b: Seq<i64>, e: Seq<i64>, v: u32|
        device_in(env, node, 0) is Some implies runnable(
        env,
        node,
        crate::interp::work::plan_work(#[trigger] crate::interp::layout::pad_plan_of(s, b, e, v)),
    ) by {
        law_pad_plan(s, b, e, v);
        match crate::interp::layout::pad_plan_of(s, b, e, v) {
            Some(p) => {
                lemma_more(p, set![0usize], placed(env, node));
            },
            None => {},
        }
    }
}

proof fn lemma_slice(env: ExecutionEnv, fetched: NameMap<HostTensor>, node: NodeIr)
    ensures
        runnable(env, node, slice_step(env, fetched, node)),
{
    assert forall|s: Seq<i64>, out: Seq<i64>, start: Seq<i64>, step: Seq<i64>|
        device_in(env, node, 0) is Some implies runnable(
        env,
        node,
        crate::interp::work::plan_work(
            #[trigger] crate::interp::layout::slice_plan_of(s, out, start, step),
        ),
    ) by {
        law_slice_plan(s, out, start, step);
        match crate::interp::layout::slice_plan_of(s, out, start, step) {
            Some(p) => {
                lemma_more(p, set![0usize], placed(env, node));
            },
            None => {},
        }
    }
}

proof fn lemma_split(env: ExecutionEnv, fetched: NameMap<HostTensor>, node: NodeIr)
    ensures
        runnable(env, node, split_step(env, fetched, node)),
{
    assert(node.outputs.len() == node.outputs@.len());
    assert forall|s: Seq<i64>, axis: int, sizes: Seq<i64>|
        device_in(env, node, 0) is Some && sizes.len() <= usize::MAX implies runnable(
        env,
        node,
        crate::interp::work::plan_work(#[trigger] crate::interp::layout::split_of(s, axis, sizes)),
    ) by {
        law_split_plan(s, axis, sizes);
        match crate::interp::layout::split_of(s, axis, sizes) {
            Some(p) => {
                lemma_more(p, set![0usize], placed(env, node));
            },
            None => {},
        }
    }
}

proof fn lemma_concat(env: ExecutionEnv, fetched: NameMap<HostTensor>, node: NodeIr)
    ensures
        runnable(env, node, concat_step(env, fetched, node)),
{
    match concat_step(env, fetched, node) {
        Some(WorkView::Plan(p)) => {
            let ins = given_inputs(node, node.inputs@.len() as int);
            let parts = joined_parts(env, node, ins);
            lemma_present(env, node, joined_wants(ins));
            law_concat_plan(parts, node.opt_int_attr("axis"@)->0);
            assert forall|i: usize| joined_inputs(parts).contains(i) implies placed(
                env,
                node,
            ).contains(i) by {
                let k = choose|k: int| 0 <= k < parts.len() && (#[trigger] parts[k]).input == i;
                assert(joined_wants(ins)[k].0 == i);
            }
            lemma_more(p, joined_inputs(parts), placed(env, node));
        },
        _ => {},
    }
}

/// Whether work is no plan: the node asks for something else first.
pub open spec fn no_plan(w: Option<WorkView>) -> bool {
    !(w matches Some(WorkView::Plan(_)))
}

proof fn lemma_compare(env: ExecutionEnv, fetched: NameMap<HostTensor>, node: NodeIr, op: CmpOp)
    ensures
        no_plan(compare_step(env, fetched, node, op)),
{
}

proof fn lemma_if(env: ExecutionEnv, fetched: NameMap<HostTensor>, node: NodeIr)
    ensures
        no_plan(if_step(env, fetched, node)),
{
}

proof fn lemma_shape(env: ExecutionEnv, node: NodeIr)
    ensures
        no_plan(shape_step(env, node)),
{
}

proof fn lemma_matmul_integer(
    env: ExecutionEnv,
    cache: KernelCache,
    fetched: NameMap<HostTensor>,
    node: NodeIr,
)
    ensures
        no_plan(matmul_integer_step(env, cache, fetched, node)),
{
}

proof fn lemma_matmul(env: ExecutionEnv, node: NodeIr)
    ensures
        no_plan(matmul_step(env, node)),
{
}

proof fn lemma_conv(env: ExecutionEnv, node: NodeIr)
    ensures
        no_plan(conv_step(env, node)),
{
}

proof fn lemma_conv_integer(env: ExecutionEnv, node: NodeIr)
    ensures
        no_plan(conv_integer_step(env, node)),
{
}

proof fn lemma_conv_transpose(env: ExecutionEnv, node: NodeIr)
    ensures
        no_plan(conv_transpose_step(env, node)),
{
}

proof fn lemma_mod(env: ExecutionEnv, fetched: NameMap<HostTensor>, node: NodeIr)
    ensures
        no_plan(mod_step(env, fetched, node)),
{
}

proof fn lemma_floor(env: ExecutionEnv, fetched: NameMap<HostTensor>, node: NodeIr)
    ensures
        no_plan(floor_step(env, fetched, node)),
{
}

proof fn lemma_not(env: ExecutionEnv, fetched: NameMap<HostTensor>, node: NodeIr)
    ensures
        no_plan(not_step(env, fetched, node)),
{
}

proof fn lemma_gather_elements(env: ExecutionEnv, fetched: NameMap<HostTensor>, node: NodeIr)
    ensures
        no_plan(gather_elements_step(env, fetched, node)),
{
}

proof fn lemma_scatter(env: ExecutionEnv, fetched: NameMap<HostTensor>, node: NodeIr)
    ensures
        no_plan(scatter_step(env, fetched, node)),
{
}

proof fn lemma_top_k(env: ExecutionEnv, fetched: NameMap<HostTensor>, node: NodeIr)
    ensures
        no_plan(top_k_step(env, fetched, node)),
{
}

proof fn lemma_constant_of_shape(env: ExecutionEnv, fetched: NameMap<HostTensor>, node: NodeIr)
    ensures
        no_plan(constant_of_shape_step(env, fetched, node)),
{
}

proof fn lemma_expand(env: ExecutionEnv, fetched: NameMap<HostTensor>, node: NodeIr)
    ensures
        no_plan(expand_step(env, fetched, node)),
{
}

proof fn lemma_range(env: ExecutionEnv, fetched: NameMap<HostTensor>, node: NodeIr)
    ensures
        no_plan(range_step(env, fetched, node)),
{
}

proof fn lemma_tile(env: ExecutionEnv, fetched: NameMap<HostTensor>, node: NodeIr)
    ensures
        no_plan(tile_step(env, fetched, node)),
{
}

proof fn lemma_constant(node: NodeIr)
    ensures
        no_plan(constant_step(node)),
{
}

proof fn lemma_cumsum(env: ExecutionEnv, fetched: NameMap<HostTensor>, node: NodeIr)
    ensures
        no_plan(cumsum_step(env, fetched, node)),
{
}

proof fn lemma_resize(env: ExecutionEnv, fetched: NameMap<HostTensor>, node: NodeIr)
    ensures
        no_plan(resize_step(env, fetched, node)),
{
}

proof fn lemma_attention(env: ExecutionEnv, node: NodeIr, max_context: u32)
    ensures
        no_plan(attention_step(env, node, max_context)),
{
}

proof fn lemma_nbits(env: ExecutionEnv, node: NodeIr)
    ensures
        no_plan(nbits_step(env, node)),
{
}

/// **A plan that a node asks for can be carried out**: its commands name only buffers that the
/// plan has and inputs that are on the device.
pub proof fn law_plans_are_ready(
    env: ExecutionEnv,
    cache: KernelCache,
    fetched: NameMap<HostTensor>,
    node: NodeIr,
    limits: Limits,
)
    ensures
        runnable(env, node, work_of(env, cache, fetched, node, limits)),
{
    reveal(operator_work);
    match operator_of(node) {
        None => {},
        Some(o) => match o {
            Operator::Unary(op) => lemma_unary(env, node, op),
            Operator::LeakyRelu => lemma_unary(
                env,
                node,
                UnaryOp::LeakyRelu(node.float_attr("alpha"@, LEAKY_SLOPE)),
            ),
            Operator::Gelu => match gelu_of(node) {
                Some(op) => lemma_unary(env, node, op),
                None => {},
            },
            Operator::Binary(op) => lemma_binary(env, fetched, node, op),
            Operator::Reduce(kind) => lemma_reduce(env, fetched, node, kind),
            Operator::Pool(kind) => lemma_pool(env, node, kind),
            Operator::Softmax => lemma_softmax(env, node),
            Operator::LayerNorm => lemma_layernorm(env, node),
            Operator::RmsNorm => lemma_rmsnorm(env, node),
            Operator::SkipRmsNorm => lemma_skip_rmsnorm(env, node),
            Operator::BatchNorm => lemma_batchnorm(env, node),
            Operator::Cast => lemma_cast(env, fetched, node),
            Operator::Reshape => lemma_new_shapes(env, fetched, node),
            Operator::Unsqueeze => lemma_new_shapes(env, fetched, node),
            Operator::Squeeze => lemma_new_shapes(env, fetched, node),
            Operator::Flatten => lemma_new_shapes(env, fetched, node),
            Operator::Transpose => lemma_transpose(env, cache, fetched, node),
            Operator::Concat => lemma_concat(env, fetched, node),
            Operator::DynamicQuantize => lemma_dynamic_quantize(env, node),
            Operator::Gather => lemma_gather(env, fetched, node),
            Operator::Slice => lemma_slice(env, fetched, node),
            Operator::Where => lemma_where(env, fetched, node),
            Operator::Quantize => lemma_quantize(env, node),
            Operator::Dequantize => lemma_dequantize(env, node),
            Operator::Pad => lemma_pad(env, fetched, node),
            Operator::Split => lemma_split(env, fetched, node),
            Operator::GridSample => lemma_grid_sample(env, node),
            Operator::Gemm => lemma_gemm(env, node, limits.tile),
            Operator::Clip => lemma_clip(env, fetched, node),
            Operator::Compare(op) => lemma_compare(env, fetched, node, op),
            Operator::If => lemma_if(env, fetched, node),
            Operator::Shape => lemma_shape(env, node),
            Operator::MatMulInteger => lemma_matmul_integer(env, cache, fetched, node),
            Operator::MatMul => lemma_matmul(env, node),
            Operator::Conv => lemma_conv(env, node),
            Operator::ConvInteger => lemma_conv_integer(env, node),
            Operator::ConvTranspose => lemma_conv_transpose(env, node),
            Operator::Mod => lemma_mod(env, fetched, node),
            Operator::Floor => lemma_floor(env, fetched, node),
            Operator::Not => lemma_not(env, fetched, node),
            Operator::GatherElements => lemma_gather_elements(env, fetched, node),
            Operator::Scatter => lemma_scatter(env, fetched, node),
            Operator::TopK => lemma_top_k(env, fetched, node),
            Operator::ConstantOfShape => lemma_constant_of_shape(env, fetched, node),
            Operator::Expand => lemma_expand(env, fetched, node),
            Operator::Range => lemma_range(env, fetched, node),
            Operator::Tile => lemma_tile(env, fetched, node),
            Operator::Constant => lemma_constant(node),
            Operator::CumSum => lemma_cumsum(env, fetched, node),
            Operator::Resize => lemma_resize(env, fetched, node),
            Operator::Attention => lemma_attention(env, node, limits.max_context),
            Operator::MatMulNbits => lemma_nbits(env, node),
        },
    }
}

/// **Every slot of such a plan stands for a buffer**, once its own buffers are made.
pub proof fn law_slots_have_buffers(
    env: ExecutionEnv,
    node: NodeIr,
    p: PlanView,
    made: Made,
    s: Slot,
)
    requires
        slot_ok(p, placed(env, node), s),
        made.outputs@.len() == p.outputs.len(),
        made.scratch@.len() == p.scratch.len(),
    ensures
        slot_handle(env, node, made, s) is Some,
{
}

} // verus!
