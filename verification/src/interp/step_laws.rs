//! What each operator makes of its inputs, once they are where it needs them.

use crate::cache::KernelCache;
use crate::device::DeviceTensor;
use crate::execution::ExecutionEnv;
use crate::graph::{NodeIr, TensorView};
use crate::host_ops::arith::compare_of;
use crate::host_ops::gather::gather_of;
use crate::host_ops::join::scatter_nd_of;
use crate::host_ops::select::where_of;
use crate::host_ops::{BinOp, CmpOp, HostTensor, FLOAT, INT8};
use crate::interp::attention::{attention_sizes_of, AttentionShapesView};
use crate::interp::conv::transposed_of;
use crate::interp::dispatch::{operator_of, operator_work, work_of, Limits, Operator};
use crate::interp::elementwise::{gpu_binary_of, mapped_of};
use crate::interp::norm::{batchnorm_of, layernorm_of};
use crate::interp::product::gemm_of;
use crate::interp::quantize::{dequantize_plan_of, quantize_plan_of};
use crate::interp::sampling::{pool_of, reduce_of, PoolKind};
use crate::interp::layout::where_plan_of;
use crate::interp::gather::gather_plan_of;
use crate::interp::transpose::{perm_of, transpose_plan_of};
use crate::interp::host_steps::{
    compare_step, constant_step, cumsum_step, if_step, mod_step, range_step, scatter_step,
    top_k_step,
};
use crate::interp::map_steps::{
    binary_step, conv_integer_step, conv_step, conv_transpose_step, dequantize_step, pool_step,
    quantize_step, reduce_step,
};
use crate::interp::move_steps::{gather_step, transpose_step, where_step};
use crate::interp::steps::{
    attention_step, batchnorm_step, gemm_step, layernorm_step, matmul_integer_step, matmul_step,
    missing, nbits_step, unary_step,
};
use crate::interp::window::{attrs_of, geometry_of};
use crate::interp::work::{device_in, dtype_in, read_of, shape_in, ReadView, WorkView};
use crate::names::NameMap;
use crate::plan::{Kernel, ReduceKind, UnaryOp};
use vstd::prelude::*;

verus! {

/// The name of an operator in a model.
pub open spec fn operator_name(o: Operator) -> Seq<char> {
    match o {
        Operator::Unary(UnaryOp::Sigmoid) => "Sigmoid"@,
        Operator::Unary(UnaryOp::Relu) => "Relu"@,
        Operator::Unary(UnaryOp::Identity) => "Identity"@,
        Operator::Unary(UnaryOp::Erf) => "Erf"@,
        Operator::Unary(UnaryOp::Neg) => "Neg"@,
        Operator::Unary(UnaryOp::Exp) => "Exp"@,
        Operator::Unary(UnaryOp::Log) => "Log"@,
        Operator::Unary(UnaryOp::Sqrt) => "Sqrt"@,
        Operator::Unary(UnaryOp::Abs) => "Abs"@,
        Operator::Unary(UnaryOp::Tanh) => "Tanh"@,
        Operator::Unary(UnaryOp::Sin) => "Sin"@,
        Operator::Unary(UnaryOp::Cos) => "Cos"@,
        Operator::Unary(UnaryOp::Reciprocal) => "Reciprocal"@,
        Operator::LeakyRelu => "LeakyRelu"@,
        Operator::Gelu => "Gelu"@,
        Operator::Binary(BinOp::Mul) => "Mul"@,
        Operator::Binary(BinOp::Add) => "Add"@,
        Operator::Binary(BinOp::Sub) => "Sub"@,
        Operator::Binary(BinOp::Div) => "Div"@,
        Operator::Binary(BinOp::Pow) => "Pow"@,
        Operator::Binary(BinOp::Min) => "Min"@,
        Operator::Binary(BinOp::Max) => "Max"@,
        Operator::Compare(CmpOp::And) => "And"@,
        Operator::Compare(CmpOp::Equal) => "Equal"@,
        Operator::Compare(CmpOp::Less) => "Less"@,
        Operator::Compare(CmpOp::Greater) => "Greater"@,
        Operator::Compare(CmpOp::LessOrEqual) => "LessOrEqual"@,
        Operator::Reduce(ReduceKind::Mean) => "ReduceMean"@,
        Operator::Reduce(ReduceKind::Sum) => "ReduceSum"@,
        Operator::Reduce(ReduceKind::Max) => "ReduceMax"@,
        Operator::Reduce(ReduceKind::Min) => "ReduceMin"@,
        Operator::Pool(PoolKind::Max) => "MaxPool"@,
        Operator::Pool(PoolKind::Average) => "AveragePool"@,
        Operator::Pool(PoolKind::GlobalAverage) => "GlobalAveragePool"@,
        Operator::Softmax => "Softmax"@,
        Operator::LayerNorm => "LayerNormalization"@,
        Operator::RmsNorm => "SimplifiedLayerNormalization"@,
        Operator::BatchNorm => "BatchNormalization"@,
        Operator::If => "If"@,
        Operator::Cast => "Cast"@,
        Operator::Shape => "Shape"@,
        Operator::Reshape => "Reshape"@,
        Operator::Unsqueeze => "Unsqueeze"@,
        Operator::Squeeze => "Squeeze"@,
        Operator::Transpose => "Transpose"@,
        Operator::Concat => "Concat"@,
        Operator::DynamicQuantize => "DynamicQuantizeLinear"@,
        Operator::MatMulInteger => "MatMulInteger"@,
        Operator::MatMul => "MatMul"@,
        Operator::Gather => "Gather"@,
        Operator::Slice => "Slice"@,
        Operator::Where => "Where"@,
        Operator::Conv => "Conv"@,
        Operator::ConvInteger => "ConvInteger"@,
        Operator::ConvTranspose => "ConvTranspose"@,
        Operator::Mod => "Mod"@,
        Operator::Quantize => "QuantizeLinear"@,
        Operator::Dequantize => "DequantizeLinear"@,
        Operator::Pad => "Pad"@,
        Operator::Split => "Split"@,
        Operator::Floor => "Floor"@,
        Operator::Not => "Not"@,
        Operator::GatherElements => "GatherElements"@,
        Operator::Scatter => "ScatterND"@,
        Operator::TopK => "TopK"@,
        Operator::ConstantOfShape => "ConstantOfShape"@,
        Operator::Expand => "Expand"@,
        Operator::Range => "Range"@,
        Operator::Tile => "Tile"@,
        Operator::Constant => "Constant"@,
        Operator::GridSample => "GridSample"@,
        Operator::Flatten => "Flatten"@,
        Operator::CumSum => "CumSum"@,
        Operator::Gemm => "Gemm"@,
        Operator::Resize => "Resize"@,
        Operator::Clip => "Clip"@,
        Operator::SkipRmsNorm => "SkipSimplifiedLayerNormalization"@,
        Operator::Attention => "GroupQueryAttention"@,
        Operator::MatMulNbits => "MatMulNBits"@,
        Operator::Unary(_) => Seq::empty(),
    }
}

/// **An operator is called by its name**, and those of another domain only in that domain.
pub proof fn law_operator_has_its_name(node: NodeIr)
    requires
        operator_of(node) is Some,
    ensures
        node.op@ == operator_name(operator_of(node)->Some_0),
        operator_of(node)->Some_0 is Attention || operator_of(node)->Some_0 is MatMulNbits
            || operator_of(node)->Some_0 is SkipRmsNorm ==> node.domain@ == "com.microsoft"@,
{
}

/// Whether an input of the node is there: it has a name.
pub open spec fn has_input(node: NodeIr, i: int) -> bool {
    i < node.inputs@.len() && node.inputs@[i]@.len() > 0
}

/// Whether a node does not wait for an input any more.
pub open spec fn goes_on(w: WorkView) -> bool {
    !(w is Place) && !(w is Fetch)
}

/// The tensor that is on the device as input `i`.
pub open spec fn operand(env: ExecutionEnv, node: NodeIr, i: int) -> DeviceTensor {
    device_in(env, node, i)->Some_0
}

proof fn lemma_none_missing(env: ExecutionEnv, node: NodeIr, wants: Seq<(usize, bool)>, k: int)
    requires
        missing(env, node, wants) is None,
        0 <= k < wants.len(),
    ensures
        device_in(env, node, wants[k].0 as int) is Some,
    decreases wants.len(),
{
    if k < wants.len() - 1 {
        lemma_none_missing(env, node, wants.drop_last(), k);
    }
}

/// **A function of one variable** is applied to the first input.
pub proof fn law_unary_node(
    env: ExecutionEnv,
    cache: KernelCache,
    fetched: NameMap<HostTensor>,
    node: NodeIr,
    limits: Limits,
    op: UnaryOp,
    w: WorkView,
)
    requires
        operator_of(node) == Some(Operator::Unary(op)),
        work_of(env, cache, fetched, node, limits) == Some(w),
        goes_on(w),
    ensures
        device_in(env, node, 0) is Some,
        mapped_of(
            Kernel::Unary(op),
            operand(env, node, 0).shape@,
            operand(env, node, 0).elem_count as int,
            Seq::empty(),
        ) matches Some(p) && w == WorkView::Plan(p),
{
    assert(work_of(env, cache, fetched, node, limits) == unary_step(env, node, op)) by {
        reveal(operator_work);
    }
}

/// **A leaky rectifier** has the slope of its attribute, or else 0.01.
pub proof fn law_leaky_relu_node(
    env: ExecutionEnv,
    cache: KernelCache,
    fetched: NameMap<HostTensor>,
    node: NodeIr,
    limits: Limits,
    w: WorkView,
)
    requires
        operator_of(node) == Some(Operator::LeakyRelu),
        work_of(env, cache, fetched, node, limits) == Some(w),
        goes_on(w),
    ensures
        device_in(env, node, 0) is Some,
        mapped_of(
            Kernel::Unary(UnaryOp::LeakyRelu(node.float_attr("alpha"@, 0x3c23_d70a))),
            operand(env, node, 0).shape@,
            operand(env, node, 0).elem_count as int,
            Seq::empty(),
        ) matches Some(p) && w == WorkView::Plan(p),
{
    assert(work_of(env, cache, fetched, node, limits) == unary_step(
        env,
        node,
        UnaryOp::LeakyRelu(node.float_attr("alpha"@, crate::interp::elementwise::LEAKY_SLOPE)),
    )) by {
        reveal(operator_work);
    }
}

/// **`Gelu`** is exact unless it is asked to use the hyperbolic tangent.
pub proof fn law_gelu_node(
    env: ExecutionEnv,
    cache: KernelCache,
    fetched: NameMap<HostTensor>,
    node: NodeIr,
    limits: Limits,
    w: WorkView,
)
    requires
        operator_of(node) == Some(Operator::Gelu),
        work_of(env, cache, fetched, node, limits) == Some(w),
        goes_on(w),
    ensures
        device_in(env, node, 0) is Some,
        mapped_of(
            Kernel::Unary(
                if node.str_attr("approximate"@, "none"@) == "tanh"@ {
                    UnaryOp::GeluTanh
                } else {
                    UnaryOp::Gelu
                },
            ),
            operand(env, node, 0).shape@,
            operand(env, node, 0).elem_count as int,
            Seq::empty(),
        ) matches Some(p) && w == WorkView::Plan(p),
{
    reveal(operator_work);
    reveal_strlit("none");
    reveal_strlit("tanh");
    assert("none"@[0] != "tanh"@[0]);
}

/// **Arithmetic takes the first input and then the second**: on the device for floating-point
/// numbers, on the host for others, and for small ones that are there.
pub proof fn law_binary_node(
    env: ExecutionEnv,
    cache: KernelCache,
    fetched: NameMap<HostTensor>,
    node: NodeIr,
    limits: Limits,
    op: BinOp,
    w: WorkView,
)
    requires
        operator_of(node) == Some(Operator::Binary(op)),
        work_of(env, cache, fetched, node, limits) == Some(w),
        goes_on(w),
    ensures
        ({
            ||| device_in(env, node, 0) is Some && device_in(env, node, 1) is Some && dtype_in(
                env,
                node,
                0,
            ) == Some(FLOAT) && dtype_in(env, node, 1) == Some(FLOAT) && gpu_binary_of(
                op,
                operand(env, node, 0).shape@,
                operand(env, node, 1).shape@,
            ) is Some && w == WorkView::Plan(
                gpu_binary_of(
                    op,
                    operand(env, node, 0).shape@,
                    operand(env, node, 1).shape@,
                )->Some_0,
            )
            ||| exists|a: TensorView, b: TensorView| #[trigger]
                both_read(env, fetched, node, a, b) && w == WorkView::Arithmetic(op, a, b)
        }),
        dtype_in(env, node, 0) != Some(FLOAT) || dtype_in(env, node, 1) != Some(FLOAT)
            ==> w is Arithmetic,
{
    assert(work_of(env, cache, fetched, node, limits) == binary_step(env, fetched, node, op)) by {
        reveal(operator_work);
    }
    let wants = seq![(0usize, true), (1usize, true)];
    if w is Plan {
        lemma_none_missing(env, node, wants, 0);
        lemma_none_missing(env, node, wants, 1);
    } else {
        let a = read_of(env, fetched, node, 0)->Here_0;
        let b = read_of(env, fetched, node, 1)->Here_0;
        assert(both_read(env, fetched, node, a, b));
    }
}

/// Whether these are the first two inputs, on the host.
pub open spec fn both_read(
    env: ExecutionEnv,
    fetched: NameMap<HostTensor>,
    node: NodeIr,
    a: TensorView,
    b: TensorView,
) -> bool {
    read_of(env, fetched, node, 0) == ReadView::Here(a) && read_of(env, fetched, node, 1)
        == ReadView::Here(b)
}

/// **A comparison** holds the first input against the second.
pub proof fn law_compare_node(
    env: ExecutionEnv,
    cache: KernelCache,
    fetched: NameMap<HostTensor>,
    node: NodeIr,
    limits: Limits,
    op: CmpOp,
    w: WorkView,
)
    requires
        operator_of(node) == Some(Operator::Compare(op)),
        work_of(env, cache, fetched, node, limits) == Some(w),
        goes_on(w),
    ensures
        exists|a: TensorView, b: TensorView| #[trigger]
            both_read(env, fetched, node, a, b) && compare_of(a, b, op) is Ok && w
                == WorkView::Results(seq![compare_of(a, b, op)->Ok_0]),
{
    assert(work_of(env, cache, fetched, node, limits) == compare_step(env, fetched, node, op)) by {
        reveal(operator_work);
    }
    let a = read_of(env, fetched, node, 0)->Here_0;
    let b = read_of(env, fetched, node, 1)->Here_0;
    assert(both_read(env, fetched, node, a, b));
}

/// **A remainder** divides the first input by the second; truncated where `fmod` says so.
pub proof fn law_mod_node(
    env: ExecutionEnv,
    cache: KernelCache,
    fetched: NameMap<HostTensor>,
    node: NodeIr,
    limits: Limits,
    w: WorkView,
)
    requires
        operator_of(node) == Some(Operator::Mod),
        work_of(env, cache, fetched, node, limits) == Some(w),
        goes_on(w),
    ensures
        exists|a: TensorView, b: TensorView| #[trigger]
            both_read(env, fetched, node, a, b) && w == WorkView::Remainder(
                node.int_attr("fmod"@, 0) == 1,
                a,
                b,
            ),
{
    assert(work_of(env, cache, fetched, node, limits) == mod_step(env, fetched, node)) by {
        reveal(operator_work);
    }
    let a = read_of(env, fetched, node, 0)->Here_0;
    let b = read_of(env, fetched, node, 1)->Here_0;
    assert(both_read(env, fetched, node, a, b));
}

/// **A convolution** is of the first input with the second, with the geometry of the attributes,
/// and has a bias exactly where there is a third input.
pub proof fn law_conv_node(
    env: ExecutionEnv,
    cache: KernelCache,
    fetched: NameMap<HostTensor>,
    node: NodeIr,
    limits: Limits,
    w: WorkView,
)
    requires
        operator_of(node) == Some(Operator::Conv),
        work_of(env, cache, fetched, node, limits) == Some(w),
        goes_on(w),
    ensures
        w is Conv,
        device_in(env, node, 0) is Some,
        device_in(env, node, 1) is Some,
        has_input(node, 2) ==> device_in(env, node, 2) is Some,
        shape_in(env, node, 0) matches Some(x) && shape_in(env, node, 1) matches Some(k)
            && geometry_of(attrs_of(node), x, k) == Some(w->Conv_0),
        w->Conv_1 == has_input(node, 2),
{
    assert(work_of(env, cache, fetched, node, limits) == conv_step(env, node)) by {
        reveal(operator_work);
    }
    let wants = crate::interp::map_steps::conv_wants(node);
    lemma_none_missing(env, node, wants, 0);
    lemma_none_missing(env, node, wants, 1);
    if has_input(node, 2) {
        lemma_none_missing(env, node, wants, 2);
    }
}

/// **A transposed convolution** is of the first input with the second, grown by `output_padding`;
/// what is made of the weights may be kept only where they are constant.
pub proof fn law_conv_transpose_node(
    env: ExecutionEnv,
    cache: KernelCache,
    fetched: NameMap<HostTensor>,
    node: NodeIr,
    limits: Limits,
    w: WorkView,
)
    requires
        operator_of(node) == Some(Operator::ConvTranspose),
        work_of(env, cache, fetched, node, limits) == Some(w),
        goes_on(w),
    ensures
        w is ConvTranspose,
        device_in(env, node, 0) is Some,
        device_in(env, node, 1) is Some,
        has_input(node, 2) ==> device_in(env, node, 2) is Some,
        shape_in(env, node, 0) matches Some(x) && shape_in(env, node, 1) matches Some(k)
            && transposed_of(attrs_of(node), node.ints_attr("output_padding"@), x, k) == Some(
            w->ConvTranspose_0,
        ),
        w->ConvTranspose_1 == node.ints_attr("output_padding"@),
        w->ConvTranspose_2 == has_input(node, 2),
        w->ConvTranspose_3 == env.initializers.has(node.input_name(1)),
{
    assert(work_of(env, cache, fetched, node, limits) == conv_transpose_step(env, node)) by {
        reveal(operator_work);
    }
    let wants = crate::interp::map_steps::conv_wants(node);
    lemma_none_missing(env, node, wants, 0);
    lemma_none_missing(env, node, wants, 1);
    if has_input(node, 2) {
        lemma_none_missing(env, node, wants, 2);
    }
}

/// **An integer convolution** is of the first input with the second; the third is the zero point of
/// the first, the fourth that of the second.
pub proof fn law_conv_integer_node(
    env: ExecutionEnv,
    cache: KernelCache,
    fetched: NameMap<HostTensor>,
    node: NodeIr,
    limits: Limits,
    w: WorkView,
)
    requires
        operator_of(node) == Some(Operator::ConvInteger),
        work_of(env, cache, fetched, node, limits) == Some(w),
        goes_on(w),
    ensures
        w is ConvInteger,
        device_in(env, node, 0) is Some,
        device_in(env, node, 1) is Some,
        has_input(node, 2) ==> device_in(env, node, 2) is Some,
        has_input(node, 3) ==> device_in(env, node, 3) is Some,
        shape_in(env, node, 0) matches Some(x) && shape_in(env, node, 1) matches Some(k)
            && geometry_of(attrs_of(node), x, k) == Some(w->ConvInteger_0),
        w->ConvInteger_1.x_signed == (dtype_in(env, node, 0) == Some(INT8)),
        w->ConvInteger_1.w_signed == (dtype_in(env, node, 1) == Some(INT8)),
        w->ConvInteger_1.x_zero == has_input(node, 2),
        w->ConvInteger_1.w_zero == has_input(node, 3),
        w->ConvInteger_1.w_constant == env.initializers.has(node.input_name(1)),
{
    assert(work_of(env, cache, fetched, node, limits) == conv_integer_step(env, node)) by {
        reveal(operator_work);
    }
    let wants = crate::interp::map_steps::zero_wants(node);
    lemma_none_missing(env, node, wants, 0);
    lemma_none_missing(env, node, wants, 1);
    if has_input(node, 2) {
        assert(wants[2].0 == 2);
        lemma_none_missing(env, node, wants, 2);
    }
    if has_input(node, 3) {
        assert(wants[wants.len() - 1].0 == 3);
        lemma_none_missing(env, node, wants, wants.len() - 1);
    }
}

/// **A matrix product** is of the first input with the second.
pub proof fn law_matmul_node(
    env: ExecutionEnv,
    cache: KernelCache,
    fetched: NameMap<HostTensor>,
    node: NodeIr,
    limits: Limits,
    w: WorkView,
)
    requires
        operator_of(node) == Some(Operator::MatMul),
        work_of(env, cache, fetched, node, limits) == Some(w),
        goes_on(w),
    ensures
        device_in(env, node, 0) is Some,
        device_in(env, node, 1) is Some,
        w == WorkView::MatMul(operand(env, node, 0).shape@, operand(env, node, 1).shape@),
{
    assert(work_of(env, cache, fetched, node, limits) == matmul_step(env, node)) by {
        reveal(operator_work);
    }
    let wants = seq![(0usize, true), (1usize, true)];
    lemma_none_missing(env, node, wants, 0);
    lemma_none_missing(env, node, wants, 1);
}

/// **`Gemm`** multiplies the first input by the second and adds the third, where there is one.
pub proof fn law_gemm_node(
    env: ExecutionEnv,
    cache: KernelCache,
    fetched: NameMap<HostTensor>,
    node: NodeIr,
    limits: Limits,
    w: WorkView,
)
    requires
        operator_of(node) == Some(Operator::Gemm),
        work_of(env, cache, fetched, node, limits) == Some(w),
        goes_on(w),
    ensures
        device_in(env, node, 0) is Some,
        device_in(env, node, 1) is Some,
        has_input(node, 2) ==> device_in(env, node, 2) is Some && shape_in(env, node, 2) is Some,
        shape_in(env, node, 0) is Some,
        shape_in(env, node, 1) is Some,
        gemm_of(
            node,
            shape_in(env, node, 0)->Some_0,
            shape_in(env, node, 1)->Some_0,
            if has_input(node, 2) {
                shape_in(env, node, 2)
            } else {
                None
            },
            limits.tile,
        ) matches Some(p) && w == WorkView::Plan(p),
{
    assert(work_of(env, cache, fetched, node, limits) == gemm_step(env, node, limits.tile)) by {
        reveal(operator_work);
    }
    let wants = if node.given(2) {
        seq![(0usize, true), (1usize, true), (2usize, true)]
    } else {
        seq![(0usize, true), (1usize, true)]
    };
    lemma_none_missing(env, node, wants, 0);
    lemma_none_missing(env, node, wants, 1);
    if has_input(node, 2) {
        lemma_none_missing(env, node, wants, 2);
    }
}

/// **The product with four-bit weights** takes activations, weights and scales in this order.
pub proof fn law_nbits_node(
    env: ExecutionEnv,
    cache: KernelCache,
    fetched: NameMap<HostTensor>,
    node: NodeIr,
    limits: Limits,
    w: WorkView,
)
    requires
        operator_of(node) == Some(Operator::MatMulNbits),
        work_of(env, cache, fetched, node, limits) == Some(w),
        goes_on(w),
    ensures
        device_in(env, node, 0) is Some,
        device_in(env, node, 1) is Some,
        device_in(env, node, 2) is Some,
        w is MatMulNbits,
        w->MatMulNbits_0 == operand(env, node, 0).shape@,
        w->MatMulNbits_1 == operand(env, node, 0).elem_count,
        w->MatMulNbits_2.dtype == operand(env, node, 1).dtype,
        w->MatMulNbits_2.elem_count == operand(env, node, 1).elem_count,
        w->MatMulNbits_3.dtype == operand(env, node, 2).dtype,
        w->MatMulNbits_3.elem_count == operand(env, node, 2).elem_count,
{
    assert(work_of(env, cache, fetched, node, limits) == nbits_step(env, node)) by {
        reveal(operator_work);
    }
    let wants = seq![(0usize, true), (1usize, false), (2usize, true)];
    lemma_none_missing(env, node, wants, 0);
    lemma_none_missing(env, node, wants, 1);
    lemma_none_missing(env, node, wants, 2);
}

/// **An integer matrix product** is of the first input, on the device, with the second, and both
/// zero points are there; what was packed is used only where the second is constant.
pub proof fn law_matmul_integer_node(
    env: ExecutionEnv,
    cache: KernelCache,
    fetched: NameMap<HostTensor>,
    node: NodeIr,
    limits: Limits,
    w: WorkView,
)
    requires
        operator_of(node) == Some(Operator::MatMulInteger),
        work_of(env, cache, fetched, node, limits) == Some(w),
        goes_on(w),
    ensures
        device_in(env, node, 0) is Some,
        device_in(env, node, 2) is Some,
        device_in(env, node, 3) is Some,
        w is MatMulInteger,
        w->MatMulInteger_0 == operand(env, node, 0).shape@,
        shape_in(env, node, 1) == Some(w->MatMulInteger_1),
        w->MatMulInteger_2 == (operand(env, node, 0).dtype == INT8),
        w->MatMulInteger_3 == (dtype_in(env, node, 1) == Some(INT8)),
        w->MatMulInteger_4 == env.initializers.has(node.input_name(1)),
        match w->MatMulInteger_5 {
            Some(t) => read_of(env, fetched, node, 1) == ReadView::Here(t),
            None => env.initializers.has(node.input_name(1)) && exists|rows: int, cols: int| #[trigger]
                cache.packed.has(
                    (crate::plan::PackedKeyView { name: node.input_name(1), rows, cols }),
                ),
        },
{
    assert(work_of(env, cache, fetched, node, limits) == matmul_integer_step(env, cache, fetched, node)) by {
        reveal(operator_work);
    }
    let wants = seq![(0usize, false), (2usize, false), (3usize, false)];
    lemma_none_missing(env, node, wants, 0);
    lemma_none_missing(env, node, wants, 1);
    lemma_none_missing(env, node, wants, 2);
    if w->MatMulInteger_5 is None {
        let sizes = crate::interp::int_product::int_sizes_of(
            operand(env, node, 0).shape@,
            w->MatMulInteger_1,
        )->Some_0;
        let key = crate::plan::PackedKeyView {
            name: node.input_name(1),
            rows: sizes.1,
            cols: sizes.2,
        };
        assert(cache.packed.has(key));
    }
}

/// **Attention** takes queries, keys and values, the keys and values that came before, and, as the
/// eighth and ninth input, cosines and sines.
pub proof fn law_attention_node(
    env: ExecutionEnv,
    cache: KernelCache,
    fetched: NameMap<HostTensor>,
    node: NodeIr,
    limits: Limits,
    w: WorkView,
)
    requires
        operator_of(node) == Some(Operator::Attention),
        work_of(env, cache, fetched, node, limits) == Some(w),
        goes_on(w),
    ensures
        w is Attention,
        forall|i: int|
            0 <= i < 5 || i == 7 || i == 8 ==> (#[trigger] device_in(env, node, i)) is Some,
        attention_sizes_of(
            node,
            (AttentionShapesView {
                q: operand(env, node, 0).shape@,
                k: operand(env, node, 1).shape@,
                v: operand(env, node, 2).shape@,
                past_k: operand(env, node, 3).shape@,
                past_v: operand(env, node, 4).shape@,
                cos: operand(env, node, 7).elem_count,
                sin: operand(env, node, 8).elem_count,
            }),
            limits.max_context,
        ) == Some(w->Attention_0),
{
    assert(work_of(env, cache, fetched, node, limits) == attention_step(env, node, limits.max_context)) by {
        reveal(operator_work);
    }
    let wants = crate::interp::steps::attention_wants();
    lemma_none_missing(env, node, wants, 0);
    lemma_none_missing(env, node, wants, 1);
    lemma_none_missing(env, node, wants, 2);
    lemma_none_missing(env, node, wants, 3);
    lemma_none_missing(env, node, wants, 4);
    lemma_none_missing(env, node, wants, 5);
    lemma_none_missing(env, node, wants, 6);
    assert(wants[0].0 == 0 && wants[1].0 == 1 && wants[2].0 == 2 && wants[3].0 == 3 && wants[4].0
        == 4 && wants[5].0 == 7 && wants[6].0 == 8);
}

/// **A layer normalization** scales by the second input and adds the third, where there is one.
pub proof fn law_layernorm_node(
    env: ExecutionEnv,
    cache: KernelCache,
    fetched: NameMap<HostTensor>,
    node: NodeIr,
    limits: Limits,
    w: WorkView,
)
    requires
        operator_of(node) == Some(Operator::LayerNorm),
        work_of(env, cache, fetched, node, limits) == Some(w),
        goes_on(w),
    ensures
        device_in(env, node, 0) is Some,
        device_in(env, node, 1) is Some,
        has_input(node, 2) ==> device_in(env, node, 2) is Some,
        layernorm_of(
            node,
            operand(env, node, 0).shape@,
            operand(env, node, 0).elem_count as int,
            operand(env, node, 1).elem_count as int,
            has_input(node, 2),
        ) matches Some(p) && w == WorkView::Plan(p),
{
    assert(work_of(env, cache, fetched, node, limits) == layernorm_step(env, node)) by {
        reveal(operator_work);
    }
    let wants = if node.given(2) {
        seq![(0usize, true), (1usize, true), (2usize, true)]
    } else {
        seq![(0usize, true), (1usize, true)]
    };
    lemma_none_missing(env, node, wants, 0);
    lemma_none_missing(env, node, wants, 1);
    if has_input(node, 2) {
        lemma_none_missing(env, node, wants, 2);
    }
}

/// **A batch normalization** takes scale, bias, mean and variance, one after the other.
pub proof fn law_batchnorm_node(
    env: ExecutionEnv,
    cache: KernelCache,
    fetched: NameMap<HostTensor>,
    node: NodeIr,
    limits: Limits,
    w: WorkView,
)
    requires
        operator_of(node) == Some(Operator::BatchNorm),
        work_of(env, cache, fetched, node, limits) == Some(w),
        goes_on(w),
    ensures
        forall|i: int| 0 <= i < 5 ==> (#[trigger] device_in(env, node, i)) is Some,
        batchnorm_of(
            node,
            operand(env, node, 0).shape@,
            operand(env, node, 0).elem_count as int,
            seq![
                operand(env, node, 1).elem_count,
                operand(env, node, 2).elem_count,
                operand(env, node, 3).elem_count,
                operand(env, node, 4).elem_count,
            ],
        ) matches Some(p) && w == WorkView::Plan(p),
{
    assert(work_of(env, cache, fetched, node, limits) == batchnorm_step(env, node)) by {
        reveal(operator_work);
    }
    let wants = seq![
        (0usize, true),
        (1usize, true),
        (2usize, true),
        (3usize, true),
        (4usize, true),
    ];
    assert forall|i: int| 0 <= i < 5 implies (#[trigger] device_in(env, node, i)) is Some by {
        lemma_none_missing(env, node, wants, i);
    }
}

/// **A pooling** goes over the first input.
pub proof fn law_pool_node(
    env: ExecutionEnv,
    cache: KernelCache,
    fetched: NameMap<HostTensor>,
    node: NodeIr,
    limits: Limits,
    kind: PoolKind,
    w: WorkView,
)
    requires
        operator_of(node) == Some(Operator::Pool(kind)),
        work_of(env, cache, fetched, node, limits) == Some(w),
        goes_on(w),
    ensures
        device_in(env, node, 0) is Some,
        shape_in(env, node, 0) matches Some(x) && pool_of(node, kind, x) matches Some(p) && w
            == WorkView::Plan(p),
{
    assert(work_of(env, cache, fetched, node, limits) == pool_step(env, node, kind)) by {
        reveal(operator_work);
    }
    lemma_none_missing(env, node, seq![(0usize, true)], 0);
}

/// **A reduction** of floating-point numbers runs on the device, of others on the host, of its own kind.
pub proof fn law_reduce_node(
    env: ExecutionEnv,
    cache: KernelCache,
    fetched: NameMap<HostTensor>,
    node: NodeIr,
    limits: Limits,
    kind: ReduceKind,
    w: WorkView,
)
    requires
        operator_of(node) == Some(Operator::Reduce(kind)),
        work_of(env, cache, fetched, node, limits) == Some(w),
        goes_on(w),
    ensures
        dtype_in(env, node, 0) == Some(FLOAT) ==> device_in(env, node, 0) is Some && reduce_of(
            node,
            kind,
            shape_in(env, node, 0)->Some_0,
            operand(env, node, 0).elem_count as int,
        ) is Some && w == WorkView::Plan(
            reduce_of(
                node,
                kind,
                shape_in(env, node, 0)->Some_0,
                operand(env, node, 0).elem_count as int,
            )->Some_0,
        ),
        dtype_in(env, node, 0) != Some(FLOAT) ==> exists|t: TensorView, axis: int| #[trigger]
            reduced_on_host(env, fetched, node, kind, t, axis, w),
{
    assert(work_of(env, cache, fetched, node, limits) == reduce_step(env, fetched, node, kind)) by {
        reveal(operator_work);
    }
    if dtype_in(env, node, 0) != Some(FLOAT) {
        let t = read_of(env, fetched, node, 0)->Here_0;
        let axis = crate::interp::sampling::reduced_axis(
            node,
            shape_in(env, node, 0)->Some_0.len() as int,
        )->Some_0;
        assert(reduced_on_host(env, fetched, node, kind, t, axis, w));
    }
}

/// Whether the results are the first input, reduced along the axis by the same kind of reduction.
pub open spec fn reduced_on_host(
    env: ExecutionEnv,
    fetched: NameMap<HostTensor>,
    node: NodeIr,
    kind: ReduceKind,
    t: TensorView,
    axis: int,
    w: WorkView,
) -> bool {
    let op = match kind {
        ReduceKind::Mean => crate::host_ops::scan::RedOp::Mean,
        ReduceKind::Sum => crate::host_ops::scan::RedOp::Sum,
        ReduceKind::Max => crate::host_ops::scan::RedOp::Max,
        ReduceKind::Min => crate::host_ops::scan::RedOp::Min,
    };
    let r = crate::host_ops::scan::reduce_of(t, axis, op, node.int_attr("keepdims"@, 1) != 0);
    &&& read_of(env, fetched, node, 0) == ReadView::Here(t)
    &&& r is Ok
    &&& w == WorkView::Results(seq![r->Ok_0])
}

/// **A dequantization** takes elements, scales, and zero points where there are some.
pub proof fn law_dequantize_node(
    env: ExecutionEnv,
    cache: KernelCache,
    fetched: NameMap<HostTensor>,
    node: NodeIr,
    limits: Limits,
    w: WorkView,
)
    requires
        operator_of(node) == Some(Operator::Dequantize),
        work_of(env, cache, fetched, node, limits) == Some(w),
        goes_on(w),
    ensures
        device_in(env, node, 0) is Some,
        device_in(env, node, 1) is Some,
        has_input(node, 2) ==> device_in(env, node, 2) is Some,
        shape_in(env, node, 0) is Some && shape_in(env, node, 1) is Some && dtype_in(env, node, 0)
            is Some,
        dequantize_plan_of(
            node,
            shape_in(env, node, 0)->Some_0,
            dtype_in(env, node, 0)->Some_0,
            shape_in(env, node, 1)->Some_0,
            has_input(node, 2),
        ) matches Some(p) && w == WorkView::Plan(p),
{
    assert(work_of(env, cache, fetched, node, limits) == dequantize_step(env, node)) by {
        reveal(operator_work);
    }
    let wants = crate::interp::map_steps::dequantize_wants(node);
    lemma_none_missing(env, node, wants, 0);
    lemma_none_missing(env, node, wants, 1);
    if has_input(node, 2) {
        lemma_none_missing(env, node, wants, 2);
    }
}

/// **A quantization** takes elements, scales, and zero points where there are some.
pub proof fn law_quantize_node(
    env: ExecutionEnv,
    cache: KernelCache,
    fetched: NameMap<HostTensor>,
    node: NodeIr,
    limits: Limits,
    w: WorkView,
)
    requires
        operator_of(node) == Some(Operator::Quantize),
        work_of(env, cache, fetched, node, limits) == Some(w),
        goes_on(w),
    ensures
        device_in(env, node, 0) is Some,
        device_in(env, node, 1) is Some,
        has_input(node, 2) ==> device_in(env, node, 2) is Some && dtype_in(env, node, 2) is Some,
        shape_in(env, node, 0) is Some && shape_in(env, node, 1) is Some,
        quantize_plan_of(
            node,
            shape_in(env, node, 0)->Some_0,
            shape_in(env, node, 1)->Some_0,
            if has_input(node, 2) {
                dtype_in(env, node, 2)
            } else {
                None
            },
        ) matches Some(p) && w == WorkView::Plan(p),
{
    assert(work_of(env, cache, fetched, node, limits) == quantize_step(env, node)) by {
        reveal(operator_work);
    }
    let wants = crate::interp::map_steps::quantize_wants(node);
    lemma_none_missing(env, node, wants, 0);
    lemma_none_missing(env, node, wants, 1);
    if has_input(node, 2) {
        lemma_none_missing(env, node, wants, 2);
    }
}

/// **A transposition** permutes by the attribute, or else reverses the dimensions, wherever it is
/// done.
pub proof fn law_transpose_node(
    env: ExecutionEnv,
    cache: KernelCache,
    fetched: NameMap<HostTensor>,
    node: NodeIr,
    limits: Limits,
    w: WorkView,
)
    requires
        operator_of(node) == Some(Operator::Transpose),
        work_of(env, cache, fetched, node, limits) == Some(w),
        goes_on(w),
    ensures
        shape_in(env, node, 0) matches Some(s) && perm_of(node, s.len() as int) is Some,
        ({
            let s = shape_in(env, node, 0)->Some_0;
            let perm = perm_of(node, s.len() as int)->Some_0;
            &&& s.len() <= usize::MAX ==> (node.ints_attr("perm"@) matches Some(l) ==> perm.len() == l.len() && forall|d: int|
                0 <= d < l.len() ==> #[trigger] perm[d] == l[d])
            &&& s.len() <= usize::MAX && node.ints_attr("perm"@) is None ==> perm.len() == s.len() && forall|d: int|
                0 <= d < s.len() ==> #[trigger] perm[d] == s.len() - 1 - d
            &&& w is Results ==> exists|t: TensorView| #[trigger]
                transposed_on_host(env, fetched, node, perm, t, w)
            &&& w matches WorkView::Plan(p) ==> transpose_plan_of(
                dtype_in(env, node, 0)->Some_0,
                s,
                perm,
            ) == Some(p) || (perm == seq![1usize, 0usize] && env.initializers.has(
                node.input_name(0),
            ))
            &&& w is Results || w is Plan
        }),
{
    assert(work_of(env, cache, fetched, node, limits) == transpose_step(env, cache, fetched, node)) by {
        reveal(operator_work);
    }
    if w is Results {
        let s = shape_in(env, node, 0)->Some_0;
        let perm = perm_of(node, s.len() as int)->Some_0;
        let t = read_of(env, fetched, node, 0)->Here_0;
        assert(transposed_on_host(env, fetched, node, perm, t, w));
    }
}

pub open spec fn transposed_on_host(
    env: ExecutionEnv,
    fetched: NameMap<HostTensor>,
    node: NodeIr,
    perm: Seq<usize>,
    t: TensorView,
    w: WorkView,
) -> bool {
    &&& read_of(env, fetched, node, 0) == ReadView::Here(t)
    &&& crate::interp::transpose::transposed_of(t, perm) matches Some(r) && w == WorkView::Results(
        seq![r],
    )
}

/// **A gathering** takes from the first input at the second, along the axis of the attribute.
pub proof fn law_gather_node(
    env: ExecutionEnv,
    cache: KernelCache,
    fetched: NameMap<HostTensor>,
    node: NodeIr,
    limits: Limits,
    w: WorkView,
)
    requires
        operator_of(node) == Some(Operator::Gather),
        work_of(env, cache, fetched, node, limits) == Some(w),
        goes_on(w),
    ensures
        dtype_in(env, node, 0) == Some(FLOAT) ==> exists|t: TensorView| #[trigger]
            gathered_on_device(env, fetched, node, t, w),
        dtype_in(env, node, 0) != Some(FLOAT) ==> exists|a: TensorView, b: TensorView| #[trigger]
            both_read(env, fetched, node, a, b) && gather_of(a, b, node.int_attr("axis"@, 0) as int)
                is Ok && w == WorkView::Results(
                seq![gather_of(a, b, node.int_attr("axis"@, 0) as int)->Ok_0],
            ),
{
    assert(work_of(env, cache, fetched, node, limits) == gather_step(env, fetched, node)) by {
        reveal(operator_work);
    }
    if dtype_in(env, node, 0) == Some(FLOAT) {
        let t = read_of(env, fetched, node, 1)->Here_0;
        assert(gathered_on_device(env, fetched, node, t, w));
    } else {
        let a = read_of(env, fetched, node, 0)->Here_0;
        let b = read_of(env, fetched, node, 1)->Here_0;
        assert(both_read(env, fetched, node, a, b));
    }
}

pub open spec fn gathered_on_device(
    env: ExecutionEnv,
    fetched: NameMap<HostTensor>,
    node: NodeIr,
    t: TensorView,
    w: WorkView,
) -> bool {
    &&& read_of(env, fetched, node, 1) == ReadView::Here(t)
    &&& crate::host_ops::ints_of(t) is Ok
    &&& device_in(env, node, 0) is Some
    &&& gather_plan_of(
        shape_in(env, node, 0)->Some_0,
        node.int_attr("axis"@, 0),
        t.shape,
        crate::host_ops::ints_of(t)->Ok_0,
    ) matches Some(p) && w == WorkView::Plan(p)
}

/// **A choice** is made by the first input between the second and the third, on the device for
/// floating-point numbers.
pub proof fn law_where_node(env: ExecutionEnv, fetched: NameMap<HostTensor>, node: NodeIr, w: WorkView)
    requires
        where_step(env, fetched, node) == Some(w),
        goes_on(w),
        dtype_in(env, node, 1) == Some(FLOAT),
    ensures
        w is Plan,
        shape_in(env, node, 0) is Some,
        shape_in(env, node, 1) is Some,
        shape_in(env, node, 2) is Some,
        where_plan_of(
            shape_in(env, node, 0)->Some_0,
            shape_in(env, node, 1)->Some_0,
            shape_in(env, node, 2)->Some_0,
        ) == Some(w->Plan_0),
        forall|i: int| 0 <= i < 3 ==> (#[trigger] device_in(env, node, i)) is Some,
{
    let wants = seq![(0usize, false), (1usize, true), (2usize, true)];
    assert forall|i: int| 0 <= i < 3 implies (#[trigger] device_in(env, node, i)) is Some by {
        lemma_none_missing(env, node, wants, i);
    }
}

/// The same on the host for others.
pub proof fn law_where_node_on_host(
    env: ExecutionEnv,
    fetched: NameMap<HostTensor>,
    node: NodeIr,
    w: WorkView,
)
    requires
        where_step(env, fetched, node) == Some(w),
        goes_on(w),
        dtype_in(env, node, 1) != Some(FLOAT),
    ensures
        exists|c: TensorView, x: TensorView, y: TensorView, out: Seq<i64>| #[trigger]
            chosen_on_host(env, fetched, node, c, x, y, out, w),
{
    let c = read_of(env, fetched, node, 0)->Here_0;
    let x = read_of(env, fetched, node, 1)->Here_0;
    let y = read_of(env, fetched, node, 2)->Here_0;
    let out = crate::interp::layout::where_shape_of(
        shape_in(env, node, 0)->Some_0,
        shape_in(env, node, 1)->Some_0,
        shape_in(env, node, 2)->Some_0,
    )->Some_0;
    assert(chosen_on_host(env, fetched, node, c, x, y, out, w));
}

/// A node with the operator `Where` chooses so.
pub proof fn law_where_is_a_choice(
    env: ExecutionEnv,
    cache: KernelCache,
    fetched: NameMap<HostTensor>,
    node: NodeIr,
    limits: Limits,
)
    requires
        operator_of(node) == Some(Operator::Where),
    ensures
        work_of(env, cache, fetched, node, limits) == where_step(env, fetched, node),
{
    reveal(operator_work);
}

pub open spec fn chosen_on_host(
    env: ExecutionEnv,
    fetched: NameMap<HostTensor>,
    node: NodeIr,
    c: TensorView,
    x: TensorView,
    y: TensorView,
    out: Seq<i64>,
    w: WorkView,
) -> bool {
    &&& read_of(env, fetched, node, 0) == ReadView::Here(c)
    &&& read_of(env, fetched, node, 1) == ReadView::Here(x)
    &&& read_of(env, fetched, node, 2) == ReadView::Here(y)
    &&& where_of(c, x, y, out) matches Ok(t) && w == WorkView::Results(seq![t])
}

/// **A constant** gives its own tensor.
pub proof fn law_constant_node(
    env: ExecutionEnv,
    cache: KernelCache,
    fetched: NameMap<HostTensor>,
    node: NodeIr,
    limits: Limits,
    w: WorkView,
)
    requires
        operator_of(node) == Some(Operator::Constant),
        work_of(env, cache, fetched, node, limits) == Some(w),
        goes_on(w),
    ensures
        node.attrs.has("value"@),
        node.attrs.at("value"@) is Tensor,
        w == WorkView::Results(seq![(node.attrs.at("value"@)->Tensor_0)@]),
{
    assert(work_of(env, cache, fetched, node, limits) == constant_step(node)) by {
        reveal(operator_work);
    }
}

/// **A branch** is the first one where the condition is not zero.
pub proof fn law_if_node(
    env: ExecutionEnv,
    cache: KernelCache,
    fetched: NameMap<HostTensor>,
    node: NodeIr,
    limits: Limits,
    w: WorkView,
)
    requires
        operator_of(node) == Some(Operator::If),
        work_of(env, cache, fetched, node, limits) == Some(w),
        goes_on(w),
    ensures
        exists|t: TensorView| #[trigger]
            read_of(env, fetched, node, 0) == ReadView::Here(t) && crate::host_ops::ints_of(t) is Ok
                && crate::host_ops::ints_of(t)->Ok_0.len() > 0 && w == WorkView::Branch(
                crate::host_ops::ints_of(t)->Ok_0[0] != 0,
            ),
{
    assert(work_of(env, cache, fetched, node, limits) == if_step(env, fetched, node)) by {
        reveal(operator_work);
    }
    let t = read_of(env, fetched, node, 0)->Here_0;
    assert(read_of(env, fetched, node, 0) == ReadView::Here(t));
}

/// **Running sums** of the first input, along the axis that the second gives; exclusive and
/// backwards as the attributes say.
pub proof fn law_cumsum_node(
    env: ExecutionEnv,
    cache: KernelCache,
    fetched: NameMap<HostTensor>,
    node: NodeIr,
    limits: Limits,
    w: WorkView,
)
    requires
        operator_of(node) == Some(Operator::CumSum),
        work_of(env, cache, fetched, node, limits) == Some(w),
        goes_on(w),
    ensures
        w is RunningSums,
        read_of(env, fetched, node, 0) == ReadView::Here(w->RunningSums_0),
        exists|t: TensorView| #[trigger]
            read_of(env, fetched, node, 1) == ReadView::Here(t) && crate::host_ops::ints_of(t) is Ok
                && crate::host_ops::ints_of(t)->Ok_0 == seq![w->RunningSums_1],
        w->RunningSums_2 == (node.int_attr("exclusive"@, 0) != 0),
        w->RunningSums_3 == (node.int_attr("reverse"@, 0) != 0),
{
    assert(work_of(env, cache, fetched, node, limits) == cumsum_step(env, fetched, node)) by {
        reveal(operator_work);
    }
    let t = read_of(env, fetched, node, 1)->Here_0;
    assert(read_of(env, fetched, node, 1) == ReadView::Here(t));
    assert(crate::host_ops::ints_of(t)->Ok_0 =~= seq![w->RunningSums_1]);
}

/// **The first so many** of the first input, as many as the second says, largest first unless told otherwise.
pub proof fn law_top_k_node(
    env: ExecutionEnv,
    cache: KernelCache,
    fetched: NameMap<HostTensor>,
    node: NodeIr,
    limits: Limits,
    w: WorkView,
)
    requires
        operator_of(node) == Some(Operator::TopK),
        work_of(env, cache, fetched, node, limits) == Some(w),
        goes_on(w),
    ensures
        w is TopK,
        read_of(env, fetched, node, 0) == ReadView::Here(w->TopK_0),
        exists|t: TensorView| #[trigger]
            read_of(env, fetched, node, 1) == ReadView::Here(t) && crate::host_ops::ints_of(t) is Ok
                && crate::host_ops::ints_of(t)->Ok_0 == seq![w->TopK_1 as i64],
        w->TopK_1 >= 0,
        w->TopK_2 == node.int_attr("axis"@, (-1) as i64),
        w->TopK_3 == (node.int_attr("largest"@, 1) != 0),
{
    assert(work_of(env, cache, fetched, node, limits) == top_k_step(env, fetched, node)) by {
        reveal(operator_work);
    }
    let t = read_of(env, fetched, node, 1)->Here_0;
    assert(read_of(env, fetched, node, 1) == ReadView::Here(t));
    assert(crate::host_ops::ints_of(t)->Ok_0 =~= seq![w->TopK_1 as i64]);
}

/// **A range** goes from the first input to the second by the third.
pub proof fn law_range_node(
    env: ExecutionEnv,
    cache: KernelCache,
    fetched: NameMap<HostTensor>,
    node: NodeIr,
    limits: Limits,
    w: WorkView,
)
    requires
        operator_of(node) == Some(Operator::Range),
        work_of(env, cache, fetched, node, limits) == Some(w),
        goes_on(w),
    ensures
        w is Range,
        read_of(env, fetched, node, 0) == ReadView::Here(w->Range_0),
        read_of(env, fetched, node, 1) == ReadView::Here(w->Range_1),
        read_of(env, fetched, node, 2) == ReadView::Here(w->Range_2),
{
    assert(work_of(env, cache, fetched, node, limits) == range_step(env, fetched, node)) by {
        reveal(operator_work);
    }
}

/// **A scattering** writes the third input into the first, at the second.
pub proof fn law_scatter_node(
    env: ExecutionEnv,
    cache: KernelCache,
    fetched: NameMap<HostTensor>,
    node: NodeIr,
    limits: Limits,
    w: WorkView,
)
    requires
        operator_of(node) == Some(Operator::Scatter),
        work_of(env, cache, fetched, node, limits) == Some(w),
        goes_on(w),
    ensures
        exists|a: TensorView, b: TensorView, c: TensorView|
            read_of(env, fetched, node, 2) == ReadView::Here(c) && both_read(env, fetched, node, a, b)
                && (#[trigger] scatter_nd_of(a, b, c)) is Ok && w == WorkView::Results(
                seq![scatter_nd_of(a, b, c)->Ok_0],
            ),
{
    assert(work_of(env, cache, fetched, node, limits) == scatter_step(env, fetched, node)) by {
        reveal(operator_work);
    }
    let a = read_of(env, fetched, node, 0)->Here_0;
    let b = read_of(env, fetched, node, 1)->Here_0;
    let c = read_of(env, fetched, node, 2)->Here_0;
    assert(both_read(env, fetched, node, a, b));
    assert(scatter_nd_of(a, b, c) is Ok);
}

// --- nothing more is asked for ----------------------------------------------------------

proof fn lemma_none_missing_where_there(
    env: ExecutionEnv,
    node: NodeIr,
    wants: Seq<(usize, bool)>,
)
    requires
        forall|k: int|
            0 <= k < wants.len() ==> device_in(env, node, (#[trigger] wants[k]).0 as int) is Some,
    ensures
        missing(env, node, wants) is None,
    decreases wants.len(),
{
    if wants.len() > 0 {
        let rest = wants.drop_last();
        assert forall|k: int| 0 <= k < rest.len() implies device_in(
            env,
            node,
            (#[trigger] rest[k]).0 as int,
        ) is Some by {
            assert(rest[k] == wants[k]);
        }
        lemma_none_missing_where_there(env, node, rest);
        assert(wants.last() == wants[wants.len() - 1]);
    }
}

/// Whether these inputs are on the device.
pub open spec fn all_there(env: ExecutionEnv, node: NodeIr, n: int) -> bool {
    forall|i: int| 0 <= i < n ==> (#[trigger] device_in(env, node, i)) is Some
}

/// **A convolution whose operands are there is carried out**: with the bias where there is one,
/// whatever the number of groups.
pub proof fn law_conv_goes_on(
    env: ExecutionEnv,
    cache: KernelCache,
    fetched: NameMap<HostTensor>,
    node: NodeIr,
    limits: Limits,
    x: Seq<i64>,
    k: Seq<i64>,
)
    requires
        operator_of(node) == Some(Operator::Conv),
        all_there(env, node, 2),
        has_input(node, 2) ==> device_in(env, node, 2) is Some,
        shape_in(env, node, 0) == Some(x),
        shape_in(env, node, 1) == Some(k),
        geometry_of(attrs_of(node), x, k) is Some,
    ensures
        work_of(env, cache, fetched, node, limits) == Some(
            WorkView::Conv(geometry_of(attrs_of(node), x, k)->Some_0, has_input(node, 2)),
        ),
{
    assert(work_of(env, cache, fetched, node, limits) == conv_step(env, node)) by {
        reveal(operator_work);
    }
    let wants = crate::interp::map_steps::conv_wants(node);
    assert(device_in(env, node, 0) is Some && device_in(env, node, 1) is Some);
    lemma_none_missing_where_there(env, node, wants);
}

/// **A transposed convolution whose operands are there is carried out.**
pub proof fn law_conv_transpose_goes_on(
    env: ExecutionEnv,
    cache: KernelCache,
    fetched: NameMap<HostTensor>,
    node: NodeIr,
    limits: Limits,
    x: Seq<i64>,
    k: Seq<i64>,
)
    requires
        operator_of(node) == Some(Operator::ConvTranspose),
        all_there(env, node, 2),
        has_input(node, 2) ==> device_in(env, node, 2) is Some,
        shape_in(env, node, 0) == Some(x),
        shape_in(env, node, 1) == Some(k),
        transposed_of(attrs_of(node), node.ints_attr("output_padding"@), x, k) is Some,
    ensures
        work_of(env, cache, fetched, node, limits) == Some(
            WorkView::ConvTranspose(
                transposed_of(
                    attrs_of(node),
                    node.ints_attr("output_padding"@),
                    x,
                    k,
                )->Some_0,
                node.ints_attr("output_padding"@),
                has_input(node, 2),
                env.initializers.has(node.input_name(1)),
            ),
        ),
{
    assert(work_of(env, cache, fetched, node, limits) == conv_transpose_step(env, node)) by {
        reveal(operator_work);
    }
    let wants = crate::interp::map_steps::conv_wants(node);
    assert(device_in(env, node, 0) is Some && device_in(env, node, 1) is Some);
    lemma_none_missing_where_there(env, node, wants);
}

/// **A matrix product whose operands are there is carried out.**
pub proof fn law_matmul_goes_on(
    env: ExecutionEnv,
    cache: KernelCache,
    fetched: NameMap<HostTensor>,
    node: NodeIr,
    limits: Limits,
)
    requires
        operator_of(node) == Some(Operator::MatMul),
        node.inputs@.len() >= 2,
        all_there(env, node, 2),
    ensures
        work_of(env, cache, fetched, node, limits) == Some(
            WorkView::MatMul(operand(env, node, 0).shape@, operand(env, node, 1).shape@),
        ),
{
    assert(work_of(env, cache, fetched, node, limits) == matmul_step(env, node)) by {
        reveal(operator_work);
    }
    assert(device_in(env, node, 0) is Some && device_in(env, node, 1) is Some);
    lemma_none_missing_where_there(env, node, seq![(0usize, true), (1usize, true)]);
}

/// **An attention whose operands are there and suit each other is carried out.**
pub proof fn law_attention_goes_on(
    env: ExecutionEnv,
    cache: KernelCache,
    fetched: NameMap<HostTensor>,
    node: NodeIr,
    limits: Limits,
    s: AttentionShapesView,
)
    requires
        operator_of(node) == Some(Operator::Attention),
        node.inputs@.len() >= 9,
        all_there(env, node, 5),
        device_in(env, node, 7) is Some,
        device_in(env, node, 8) is Some,
        s.q == operand(env, node, 0).shape@,
        s.k == operand(env, node, 1).shape@,
        s.v == operand(env, node, 2).shape@,
        s.past_k == operand(env, node, 3).shape@,
        s.past_v == operand(env, node, 4).shape@,
        s.cos == operand(env, node, 7).elem_count,
        s.sin == operand(env, node, 8).elem_count,
        attention_sizes_of(node, s, limits.max_context) is Some,
    ensures
        work_of(env, cache, fetched, node, limits) == Some(
            WorkView::Attention(attention_sizes_of(node, s, limits.max_context)->Some_0),
        ),
{
    assert(work_of(env, cache, fetched, node, limits) == attention_step(
        env,
        node,
        limits.max_context,
    )) by {
        reveal(operator_work);
    }
    let wants = crate::interp::steps::attention_wants();
    assert(device_in(env, node, 0) is Some && device_in(env, node, 1) is Some && device_in(
        env,
        node,
        2,
    ) is Some && device_in(env, node, 3) is Some && device_in(env, node, 4) is Some);
    assert forall|k: int| 0 <= k < wants.len() implies device_in(
        env,
        node,
        (#[trigger] wants[k]).0 as int,
    ) is Some by {
        assert(wants[k].0 == if k < 5 {
            k as usize
        } else {
            (k + 2) as usize
        });
    }
    lemma_none_missing_where_there(env, node, wants);
    let t = AttentionShapesView {
        q: operand(env, node, 0).shape@,
        k: operand(env, node, 1).shape@,
        v: operand(env, node, 2).shape@,
        past_k: operand(env, node, 3).shape@,
        past_v: operand(env, node, 4).shape@,
        cos: operand(env, node, 7).elem_count,
        sin: operand(env, node, 8).elem_count,
    };
    assert(s =~= t);
}

/// **A function of one variable is applied once its input is there.**
pub proof fn law_unary_goes_on(
    env: ExecutionEnv,
    cache: KernelCache,
    fetched: NameMap<HostTensor>,
    node: NodeIr,
    limits: Limits,
    op: UnaryOp,
)
    requires
        operator_of(node) == Some(Operator::Unary(op)),
        node.inputs@.len() > 0,
        device_in(env, node, 0) is Some,
        crate::interp::success_laws::storable(operand(env, node, 0).elem_count as int),
    ensures
        work_of(env, cache, fetched, node, limits) is Some,
        work_of(env, cache, fetched, node, limits)->Some_0 is Plan,
{
    assert(work_of(env, cache, fetched, node, limits) == unary_step(env, node, op)) by {
        reveal(operator_work);
    }
    crate::interp::success_laws::law_mapped_succeeds(
        Kernel::Unary(op),
        node,
        operand(env, node, 0).shape@,
        operand(env, node, 0).elem_count as int,
        Seq::empty(),
        None,
        None,
        FLOAT,
        FLOAT,
    );
}

} // verus!
