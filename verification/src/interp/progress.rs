//! A node asks for an input only while that input is not there.

use crate::cache::KernelCache;
use crate::execution::ExecutionEnv;
use crate::graph::NodeIr;
use crate::host_ops::arith::{BinOp, CmpOp};
use crate::host_ops::HostTensor;
use crate::interp::dispatch::{operator_of, operator_work, work_of, Limits, Operator};
use crate::interp::elementwise::{gelu_of, LEAKY_SLOPE};
use crate::interp::sampling::PoolKind;
use crate::interp::work::{device_in, WorkView};
use crate::names::NameMap;
use crate::plan::{ReduceKind, UnaryOp};
use crate::interp::steps::{
    attention_step, batchnorm_step, dynamic_quantize_step, gemm_step, layernorm_step,
    matmul_integer_step, matmul_step, missing, nbits_step, rmsnorm_step, skip_rmsnorm_step,
    softmax_step, unary_step,
};
use crate::interp::map_steps::{
    binary_step, clip_step, conv_integer_step, conv_step, conv_transpose_step, dequantize_step,
    grid_sample_step, pool_step, quantize_step, reduce_step, resize_step,
};
use crate::interp::host_steps::{
    compare_step, constant_of_shape_step, cumsum_step, expand_step, floor_step,
    gather_elements_step, if_step, mod_step, not_step, range_step, scatter_step, tile_step,
    top_k_step,
};
use crate::interp::move_steps::{
    cast_step, flatten_step, gather_step, pad_step, reshape_step, shape_step, squeeze_step,
    transpose_step, unsqueeze_step, where_step,
};
use crate::interp::cut_steps::{
    ReadAllView, all_of, concat_step, given_inputs, slice_step, split_step,
};
use vstd::prelude::*;

verus! {

/// Whether work asks only for inputs of the node that are not there yet.
pub open spec fn asks_for_absent(
    env: ExecutionEnv,
    fetched: NameMap<HostTensor>,
    node: NodeIr,
    w: Option<WorkView>,
) -> bool {
    match w {
        Some(WorkView::Fetch(i)) => 0 <= i < node.inputs@.len() && !fetched.has(
            node.input_name(i),
        ),
        Some(WorkView::Place(i, _)) => 0 <= i && device_in(env, node, i) is None,
        _ => true,
    }
}

proof fn lemma_missing_absent(env: ExecutionEnv, node: NodeIr, wants: Seq<(usize, bool)>)
    ensures
        missing(env, node, wants) matches Some((i, _)) ==> device_in(env, node, i as int) is None,
    decreases wants.len(),
{
    if wants.len() > 0 {
        lemma_missing_absent(env, node, wants.drop_last());
    }
}

proof fn lemma_all_absent(
    env: ExecutionEnv,
    fetched: NameMap<HostTensor>,
    node: NodeIr,
    ins: Seq<usize>,
    k: int,
)
    ensures
        all_of(env, fetched, node, ins, k) matches ReadAllView::Away(i) ==> 0 <= i
            < node.inputs@.len() && !fetched.has(node.input_name(i)),
    decreases k,
{
    if k > 0 {
        lemma_all_absent(env, fetched, node, ins, k - 1);
    }
}

proof fn lemma_all_wants(env: ExecutionEnv, node: NodeIr)
    ensures
        forall|wants: Seq<(usize, bool)>|
            (#[trigger] missing(env, node, wants)) matches Some((i, _)) ==> device_in(
                env,
                node,
                i as int,
            ) is None,
{
    assert forall|wants: Seq<(usize, bool)>|
        (#[trigger] missing(env, node, wants)) matches Some((i, _)) implies device_in(
        env,
        node,
        missing(env, node, wants)->Some_0.0 as int,
    ) is None by {
        lemma_missing_absent(env, node, wants);
    }
}

// --- operators ---------------------------------------------------------------------------

proof fn lemma_unary(
    env: ExecutionEnv,
    fetched: NameMap<HostTensor>,
    node: NodeIr,
    op: UnaryOp,
)
    ensures
        asks_for_absent(env, fetched, node, unary_step(env, node, op)),
{
    lemma_all_wants(env, node);
}

proof fn lemma_binary(
    env: ExecutionEnv,
    fetched: NameMap<HostTensor>,
    node: NodeIr,
    op: BinOp,
)
    ensures
        asks_for_absent(env, fetched, node, binary_step(env, fetched, node, op)),
{
    lemma_all_wants(env, node);
}

proof fn lemma_compare(
    env: ExecutionEnv,
    fetched: NameMap<HostTensor>,
    node: NodeIr,
    op: CmpOp,
)
    ensures
        asks_for_absent(env, fetched, node, compare_step(env, fetched, node, op)),
{
    lemma_all_wants(env, node);
}

proof fn lemma_reduce(
    env: ExecutionEnv,
    fetched: NameMap<HostTensor>,
    node: NodeIr,
    kind: ReduceKind,
)
    ensures
        asks_for_absent(env, fetched, node, reduce_step(env, fetched, node, kind)),
{
    lemma_all_wants(env, node);
}

proof fn lemma_pool(
    env: ExecutionEnv,
    fetched: NameMap<HostTensor>,
    node: NodeIr,
    kind: PoolKind,
)
    ensures
        asks_for_absent(env, fetched, node, pool_step(env, node, kind)),
{
    lemma_all_wants(env, node);
}

proof fn lemma_softmax(
    env: ExecutionEnv,
    fetched: NameMap<HostTensor>,
    node: NodeIr,
)
    ensures
        asks_for_absent(env, fetched, node, softmax_step(env, node)),
{
    lemma_all_wants(env, node);
}

proof fn lemma_layernorm(
    env: ExecutionEnv,
    fetched: NameMap<HostTensor>,
    node: NodeIr,
)
    ensures
        asks_for_absent(env, fetched, node, layernorm_step(env, node)),
{
    lemma_all_wants(env, node);
}

proof fn lemma_rmsnorm(
    env: ExecutionEnv,
    fetched: NameMap<HostTensor>,
    node: NodeIr,
)
    ensures
        asks_for_absent(env, fetched, node, rmsnorm_step(env, node)),
{
    lemma_all_wants(env, node);
}

proof fn lemma_batchnorm(
    env: ExecutionEnv,
    fetched: NameMap<HostTensor>,
    node: NodeIr,
)
    ensures
        asks_for_absent(env, fetched, node, batchnorm_step(env, node)),
{
    lemma_all_wants(env, node);
}

proof fn lemma_if(
    env: ExecutionEnv,
    fetched: NameMap<HostTensor>,
    node: NodeIr,
)
    ensures
        asks_for_absent(env, fetched, node, if_step(env, fetched, node)),
{
    lemma_all_wants(env, node);
}

proof fn lemma_cast(
    env: ExecutionEnv,
    fetched: NameMap<HostTensor>,
    node: NodeIr,
)
    ensures
        asks_for_absent(env, fetched, node, cast_step(env, fetched, node)),
{
    lemma_all_wants(env, node);
}

proof fn lemma_shape(
    env: ExecutionEnv,
    fetched: NameMap<HostTensor>,
    node: NodeIr,
)
    ensures
        asks_for_absent(env, fetched, node, shape_step(env, node)),
{
    lemma_all_wants(env, node);
}

proof fn lemma_reshape(
    env: ExecutionEnv,
    fetched: NameMap<HostTensor>,
    node: NodeIr,
)
    ensures
        asks_for_absent(env, fetched, node, reshape_step(env, fetched, node)),
{
    lemma_all_wants(env, node);
}

proof fn lemma_unsqueeze(
    env: ExecutionEnv,
    fetched: NameMap<HostTensor>,
    node: NodeIr,
)
    ensures
        asks_for_absent(env, fetched, node, unsqueeze_step(env, fetched, node)),
{
    lemma_all_wants(env, node);
}

proof fn lemma_squeeze(
    env: ExecutionEnv,
    fetched: NameMap<HostTensor>,
    node: NodeIr,
)
    ensures
        asks_for_absent(env, fetched, node, squeeze_step(env, fetched, node)),
{
    lemma_all_wants(env, node);
}

proof fn lemma_transpose(
    env: ExecutionEnv,
    cache: KernelCache,
    fetched: NameMap<HostTensor>,
    node: NodeIr,
)
    ensures
        asks_for_absent(env, fetched, node, transpose_step(env, cache, fetched, node)),
{
    lemma_all_wants(env, node);
}

proof fn lemma_concat(
    env: ExecutionEnv,
    fetched: NameMap<HostTensor>,
    node: NodeIr,
)
    ensures
        asks_for_absent(env, fetched, node, concat_step(env, fetched, node)),
{
    lemma_all_wants(env, node);
    let ins = given_inputs(node, node.inputs@.len() as int);
    lemma_all_absent(env, fetched, node, ins, ins.len() as int);
}

proof fn lemma_dynamic_quantize(
    env: ExecutionEnv,
    fetched: NameMap<HostTensor>,
    node: NodeIr,
)
    ensures
        asks_for_absent(env, fetched, node, dynamic_quantize_step(env, node)),
{
    lemma_all_wants(env, node);
}

proof fn lemma_matmul_integer(
    env: ExecutionEnv,
    cache: KernelCache,
    fetched: NameMap<HostTensor>,
    node: NodeIr,
)
    ensures
        asks_for_absent(env, fetched, node, matmul_integer_step(env, cache, fetched, node)),
{
    lemma_all_wants(env, node);
}

proof fn lemma_matmul(
    env: ExecutionEnv,
    fetched: NameMap<HostTensor>,
    node: NodeIr,
)
    ensures
        asks_for_absent(env, fetched, node, matmul_step(env, node)),
{
    lemma_all_wants(env, node);
}

proof fn lemma_gather(
    env: ExecutionEnv,
    fetched: NameMap<HostTensor>,
    node: NodeIr,
)
    ensures
        asks_for_absent(env, fetched, node, gather_step(env, fetched, node)),
{
    lemma_all_wants(env, node);
}

proof fn lemma_slice(
    env: ExecutionEnv,
    fetched: NameMap<HostTensor>,
    node: NodeIr,
)
    ensures
        asks_for_absent(env, fetched, node, slice_step(env, fetched, node)),
{
    lemma_all_wants(env, node);
}

proof fn lemma_where(
    env: ExecutionEnv,
    fetched: NameMap<HostTensor>,
    node: NodeIr,
)
    ensures
        asks_for_absent(env, fetched, node, where_step(env, fetched, node)),
{
    lemma_all_wants(env, node);
}

proof fn lemma_conv(
    env: ExecutionEnv,
    fetched: NameMap<HostTensor>,
    node: NodeIr,
)
    ensures
        asks_for_absent(env, fetched, node, conv_step(env, node)),
{
    lemma_all_wants(env, node);
}

proof fn lemma_conv_integer(
    env: ExecutionEnv,
    fetched: NameMap<HostTensor>,
    node: NodeIr,
)
    ensures
        asks_for_absent(env, fetched, node, conv_integer_step(env, node)),
{
    lemma_all_wants(env, node);
}

proof fn lemma_conv_transpose(
    env: ExecutionEnv,
    fetched: NameMap<HostTensor>,
    node: NodeIr,
)
    ensures
        asks_for_absent(env, fetched, node, conv_transpose_step(env, node)),
{
    lemma_all_wants(env, node);
}

proof fn lemma_mod(
    env: ExecutionEnv,
    fetched: NameMap<HostTensor>,
    node: NodeIr,
)
    ensures
        asks_for_absent(env, fetched, node, mod_step(env, fetched, node)),
{
    lemma_all_wants(env, node);
}

proof fn lemma_quantize(
    env: ExecutionEnv,
    fetched: NameMap<HostTensor>,
    node: NodeIr,
)
    ensures
        asks_for_absent(env, fetched, node, quantize_step(env, node)),
{
    lemma_all_wants(env, node);
}

proof fn lemma_dequantize(
    env: ExecutionEnv,
    fetched: NameMap<HostTensor>,
    node: NodeIr,
)
    ensures
        asks_for_absent(env, fetched, node, dequantize_step(env, node)),
{
    lemma_all_wants(env, node);
}

proof fn lemma_pad(
    env: ExecutionEnv,
    fetched: NameMap<HostTensor>,
    node: NodeIr,
)
    ensures
        asks_for_absent(env, fetched, node, pad_step(env, fetched, node)),
{
    lemma_all_wants(env, node);
}

proof fn lemma_split(
    env: ExecutionEnv,
    fetched: NameMap<HostTensor>,
    node: NodeIr,
)
    ensures
        asks_for_absent(env, fetched, node, split_step(env, fetched, node)),
{
    lemma_all_wants(env, node);
}

proof fn lemma_floor(
    env: ExecutionEnv,
    fetched: NameMap<HostTensor>,
    node: NodeIr,
)
    ensures
        asks_for_absent(env, fetched, node, floor_step(env, fetched, node)),
{
    lemma_all_wants(env, node);
}

proof fn lemma_not(
    env: ExecutionEnv,
    fetched: NameMap<HostTensor>,
    node: NodeIr,
)
    ensures
        asks_for_absent(env, fetched, node, not_step(env, fetched, node)),
{
    lemma_all_wants(env, node);
}

proof fn lemma_gather_elements(
    env: ExecutionEnv,
    fetched: NameMap<HostTensor>,
    node: NodeIr,
)
    ensures
        asks_for_absent(env, fetched, node, gather_elements_step(env, fetched, node)),
{
    lemma_all_wants(env, node);
}

proof fn lemma_scatter(
    env: ExecutionEnv,
    fetched: NameMap<HostTensor>,
    node: NodeIr,
)
    ensures
        asks_for_absent(env, fetched, node, scatter_step(env, fetched, node)),
{
    lemma_all_wants(env, node);
}

proof fn lemma_top_k(
    env: ExecutionEnv,
    fetched: NameMap<HostTensor>,
    node: NodeIr,
)
    ensures
        asks_for_absent(env, fetched, node, top_k_step(env, fetched, node)),
{
    lemma_all_wants(env, node);
}

proof fn lemma_constant_of_shape(
    env: ExecutionEnv,
    fetched: NameMap<HostTensor>,
    node: NodeIr,
)
    ensures
        asks_for_absent(env, fetched, node, constant_of_shape_step(env, fetched, node)),
{
    lemma_all_wants(env, node);
}

proof fn lemma_expand(
    env: ExecutionEnv,
    fetched: NameMap<HostTensor>,
    node: NodeIr,
)
    ensures
        asks_for_absent(env, fetched, node, expand_step(env, fetched, node)),
{
    lemma_all_wants(env, node);
}

proof fn lemma_range(
    env: ExecutionEnv,
    fetched: NameMap<HostTensor>,
    node: NodeIr,
)
    ensures
        asks_for_absent(env, fetched, node, range_step(env, fetched, node)),
{
    lemma_all_wants(env, node);
}

proof fn lemma_tile(
    env: ExecutionEnv,
    fetched: NameMap<HostTensor>,
    node: NodeIr,
)
    ensures
        asks_for_absent(env, fetched, node, tile_step(env, fetched, node)),
{
    lemma_all_wants(env, node);
}

proof fn lemma_grid_sample(
    env: ExecutionEnv,
    fetched: NameMap<HostTensor>,
    node: NodeIr,
)
    ensures
        asks_for_absent(env, fetched, node, grid_sample_step(env, node)),
{
    lemma_all_wants(env, node);
}

proof fn lemma_flatten(
    env: ExecutionEnv,
    fetched: NameMap<HostTensor>,
    node: NodeIr,
)
    ensures
        asks_for_absent(env, fetched, node, flatten_step(env, fetched, node)),
{
    lemma_all_wants(env, node);
}

proof fn lemma_cumsum(
    env: ExecutionEnv,
    fetched: NameMap<HostTensor>,
    node: NodeIr,
)
    ensures
        asks_for_absent(env, fetched, node, cumsum_step(env, fetched, node)),
{
    lemma_all_wants(env, node);
}

proof fn lemma_gemm(
    env: ExecutionEnv,
    fetched: NameMap<HostTensor>,
    node: NodeIr,
    tile: u32,
)
    ensures
        asks_for_absent(env, fetched, node, gemm_step(env, node, tile)),
{
    lemma_all_wants(env, node);
}

proof fn lemma_resize(
    env: ExecutionEnv,
    fetched: NameMap<HostTensor>,
    node: NodeIr,
)
    ensures
        asks_for_absent(env, fetched, node, resize_step(env, fetched, node)),
{
    lemma_all_wants(env, node);
}

proof fn lemma_clip(
    env: ExecutionEnv,
    fetched: NameMap<HostTensor>,
    node: NodeIr,
)
    ensures
        asks_for_absent(env, fetched, node, clip_step(env, fetched, node)),
{
    lemma_all_wants(env, node);
}

proof fn lemma_skip_rmsnorm(
    env: ExecutionEnv,
    fetched: NameMap<HostTensor>,
    node: NodeIr,
)
    ensures
        asks_for_absent(env, fetched, node, skip_rmsnorm_step(env, node)),
{
    lemma_all_wants(env, node);
}

proof fn lemma_attention(
    env: ExecutionEnv,
    fetched: NameMap<HostTensor>,
    node: NodeIr,
    max_context: u32,
)
    ensures
        asks_for_absent(env, fetched, node, attention_step(env, node, max_context)),
{
    lemma_all_wants(env, node);
}

proof fn lemma_nbits(
    env: ExecutionEnv,
    fetched: NameMap<HostTensor>,
    node: NodeIr,
)
    ensures
        asks_for_absent(env, fetched, node, nbits_step(env, node)),
{
    lemma_all_wants(env, node);
}

/// **A node makes progress**: it asks for an input to be read back only if that input was not
/// read back, and for one to be placed only if it is not on the device. So after as many
/// answers as twice its inputs a node says what is to be done.
pub proof fn law_asks_for_absent(
    env: ExecutionEnv,
    cache: KernelCache,
    fetched: NameMap<HostTensor>,
    node: NodeIr,
    limits: Limits,
)
    ensures
        asks_for_absent(env, fetched, node, work_of(env, cache, fetched, node, limits)),
{
    reveal(operator_work);
    match operator_of(node) {
        None => {},
        Some(o) => match o {
            Operator::Unary(op) => lemma_unary(env, fetched, node, op),
            Operator::LeakyRelu => lemma_unary(
                env,
                fetched,
                node,
                UnaryOp::LeakyRelu(node.float_attr("alpha"@, LEAKY_SLOPE)),
            ),
            Operator::Gelu => match gelu_of(node) {
                Some(op) => lemma_unary(env, fetched, node, op),
                None => {},
            },
            Operator::Binary(op) => lemma_binary(env, fetched, node, op),
            Operator::Compare(op) => lemma_compare(env, fetched, node, op),
            Operator::Reduce(kind) => lemma_reduce(env, fetched, node, kind),
            Operator::Pool(kind) => lemma_pool(env, fetched, node, kind),
            Operator::Softmax => lemma_softmax(env, fetched, node),
            Operator::LayerNorm => lemma_layernorm(env, fetched, node),
            Operator::RmsNorm => lemma_rmsnorm(env, fetched, node),
            Operator::BatchNorm => lemma_batchnorm(env, fetched, node),
            Operator::If => lemma_if(env, fetched, node),
            Operator::Cast => lemma_cast(env, fetched, node),
            Operator::Shape => lemma_shape(env, fetched, node),
            Operator::Reshape => lemma_reshape(env, fetched, node),
            Operator::Unsqueeze => lemma_unsqueeze(env, fetched, node),
            Operator::Squeeze => lemma_squeeze(env, fetched, node),
            Operator::Transpose => lemma_transpose(env, cache, fetched, node),
            Operator::Concat => lemma_concat(env, fetched, node),
            Operator::DynamicQuantize => lemma_dynamic_quantize(env, fetched, node),
            Operator::MatMulInteger => lemma_matmul_integer(env, cache, fetched, node),
            Operator::MatMul => lemma_matmul(env, fetched, node),
            Operator::Gather => lemma_gather(env, fetched, node),
            Operator::Slice => lemma_slice(env, fetched, node),
            Operator::Where => lemma_where(env, fetched, node),
            Operator::Conv => lemma_conv(env, fetched, node),
            Operator::ConvInteger => lemma_conv_integer(env, fetched, node),
            Operator::ConvTranspose => lemma_conv_transpose(env, fetched, node),
            Operator::Mod => lemma_mod(env, fetched, node),
            Operator::Quantize => lemma_quantize(env, fetched, node),
            Operator::Dequantize => lemma_dequantize(env, fetched, node),
            Operator::Pad => lemma_pad(env, fetched, node),
            Operator::Split => lemma_split(env, fetched, node),
            Operator::Floor => lemma_floor(env, fetched, node),
            Operator::Not => lemma_not(env, fetched, node),
            Operator::GatherElements => lemma_gather_elements(env, fetched, node),
            Operator::Scatter => lemma_scatter(env, fetched, node),
            Operator::TopK => lemma_top_k(env, fetched, node),
            Operator::ConstantOfShape => lemma_constant_of_shape(env, fetched, node),
            Operator::Expand => lemma_expand(env, fetched, node),
            Operator::Range => lemma_range(env, fetched, node),
            Operator::Tile => lemma_tile(env, fetched, node),
            Operator::Constant => {},
            Operator::GridSample => lemma_grid_sample(env, fetched, node),
            Operator::Flatten => lemma_flatten(env, fetched, node),
            Operator::CumSum => lemma_cumsum(env, fetched, node),
            Operator::Gemm => lemma_gemm(env, fetched, node, limits.tile),
            Operator::Resize => lemma_resize(env, fetched, node),
            Operator::Clip => lemma_clip(env, fetched, node),
            Operator::SkipRmsNorm => lemma_skip_rmsnorm(env, fetched, node),
            Operator::Attention => lemma_attention(env, fetched, node, limits.max_context),
            Operator::MatMulNbits => lemma_nbits(env, fetched, node),
        },
    }
}

} // verus!
