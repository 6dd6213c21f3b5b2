//! From the name of an operator to what a node of it needs next.

use crate::cache::KernelCache;
use crate::error::{backend_error, Result};
use crate::execution::ExecutionEnv;
use crate::graph::NodeIr;
use crate::host_ops::arith::{BinOp, CmpOp};
use crate::host_ops::HostTensor;
use crate::interp::elementwise::{gelu, gelu_of, leaky_relu, LEAKY_SLOPE};
use crate::interp::sampling::{resize_coord, resize_mode, resize_nearest, PoolKind};
use crate::interp::support::{attributes_ok, contributed, implemented, implemented_node};
use crate::interp::work::{ints_in, works, Work, WorkView};
use crate::names::NameMap;
use crate::plan::{ReduceKind, UnaryOp};
use crate::text;
use vstd::prelude::*;

use crate::interp::steps::{
    attention_step, batchnorm_step, dynamic_quantize_step, gemm_step, layernorm_step,
    matmul_integer_step, matmul_step, nbits_step, rmsnorm_step, skip_rmsnorm_step, softmax_step,
    step_attention, step_batchnorm, step_dynamic_quantize, step_gemm, step_layernorm,
    step_matmul, step_matmul_integer, step_nbits, step_rmsnorm, step_skip_rmsnorm, step_softmax,
    step_unary, unary_step,
};
use crate::interp::map_steps::{
    binary_step, clip_step, conv_integer_step, conv_step, conv_transpose_step, dequantize_step,
    grid_sample_step, pool_step, quantize_step, reduce_step, resize_step, step_binary, step_clip,
    step_conv, step_conv_integer, step_conv_transpose, step_dequantize, step_grid_sample,
    step_pool, step_quantize, step_reduce, step_resize,
};
use crate::interp::host_steps::{
    compare_step, constant_of_shape_step, constant_step, cumsum_step, expand_step, floor_step,
    gather_elements_step, if_step, mod_step, not_step, range_step, scatter_step, step_compare,
    step_constant, step_constant_of_shape, step_cumsum, step_expand, step_floor,
    step_gather_elements, step_if, step_mod, step_not, step_range, step_scatter, step_tile,
    step_top_k, tile_step, top_k_step,
};
use crate::interp::move_steps::{
    cast_step, flatten_step, gather_step, pad_step, reshape_step, shape_step, squeeze_step,
    step_cast, step_flatten, step_gather, step_pad, step_reshape, step_shape, step_squeeze,
    step_transpose, step_unsqueeze, step_where, transpose_step, unsqueeze_step, where_step,
};
use crate::interp::cut_steps::{
    concat_step, slice_step, split_step, step_concat, step_slice, step_split,
};

verus! {

/// An operator that can be run.
#[derive(Debug, Clone, Copy, PartialEq, Eq, Structural)]
pub enum Operator {
    Unary(UnaryOp),
    LeakyRelu,
    Gelu,
    Binary(BinOp),
    Compare(CmpOp),
    Reduce(ReduceKind),
    Pool(PoolKind),
    Softmax,
    LayerNorm,
    RmsNorm,
    BatchNorm,
    If,
    Cast,
    Shape,
    Reshape,
    Unsqueeze,
    Squeeze,
    Transpose,
    Concat,
    DynamicQuantize,
    MatMulInteger,
    MatMul,
    Gather,
    Slice,
    Where,
    Conv,
    ConvInteger,
    ConvTranspose,
    Mod,
    Quantize,
    Dequantize,
    Pad,
    Split,
    Floor,
    Not,
    GatherElements,
    Scatter,
    TopK,
    ConstantOfShape,
    Expand,
    Range,
    Tile,
    Constant,
    GridSample,
    Flatten,
    CumSum,
    Gemm,
    Resize,
    Clip,
    SkipRmsNorm,
    Attention,
    MatMulNbits,
}

/// The operators of one number or two, and those that go over windows or axes.
pub open spec fn numeric(op: Seq<char>) -> Option<Operator> {
    if op == "Sigmoid"@ {
        Some(Operator::Unary(UnaryOp::Sigmoid))
    } else if op == "Relu"@ {
        Some(Operator::Unary(UnaryOp::Relu))
    } else if op == "Identity"@ {
        Some(Operator::Unary(UnaryOp::Identity))
    } else if op == "Erf"@ {
        Some(Operator::Unary(UnaryOp::Erf))
    } else if op == "Neg"@ {
        Some(Operator::Unary(UnaryOp::Neg))
    } else if op == "Exp"@ {
        Some(Operator::Unary(UnaryOp::Exp))
    } else if op == "Log"@ {
        Some(Operator::Unary(UnaryOp::Log))
    } else if op == "Sqrt"@ {
        Some(Operator::Unary(UnaryOp::Sqrt))
    } else if op == "Abs"@ {
        Some(Operator::Unary(UnaryOp::Abs))
    } else if op == "Tanh"@ {
        Some(Operator::Unary(UnaryOp::Tanh))
    } else if op == "Sin"@ {
        Some(Operator::Unary(UnaryOp::Sin))
    } else if op == "Cos"@ {
        Some(Operator::Unary(UnaryOp::Cos))
    } else if op == "Reciprocal"@ {
        Some(Operator::Unary(UnaryOp::Reciprocal))
    } else if op == "LeakyRelu"@ {
        Some(Operator::LeakyRelu)
    } else if op == "Gelu"@ {
        Some(Operator::Gelu)
    } else if op == "Mul"@ {
        Some(Operator::Binary(BinOp::Mul))
    } else if op == "Add"@ {
        Some(Operator::Binary(BinOp::Add))
    } else if op == "Sub"@ {
        Some(Operator::Binary(BinOp::Sub))
    } else if op == "Div"@ {
        Some(Operator::Binary(BinOp::Div))
    } else if op == "Pow"@ {
        Some(Operator::Binary(BinOp::Pow))
    } else if op == "Min"@ {
        Some(Operator::Binary(BinOp::Min))
    } else if op == "Max"@ {
        Some(Operator::Binary(BinOp::Max))
    } else if op == "And"@ {
        Some(Operator::Compare(CmpOp::And))
    } else if op == "Equal"@ {
        Some(Operator::Compare(CmpOp::Equal))
    } else if op == "Less"@ {
        Some(Operator::Compare(CmpOp::Less))
    } else if op == "Greater"@ {
        Some(Operator::Compare(CmpOp::Greater))
    } else if op == "LessOrEqual"@ {
        Some(Operator::Compare(CmpOp::LessOrEqual))
    } else if op == "ReduceMean"@ {
        Some(Operator::Reduce(ReduceKind::Mean))
    } else if op == "ReduceSum"@ {
        Some(Operator::Reduce(ReduceKind::Sum))
    } else if op == "ReduceMax"@ {
        Some(Operator::Reduce(ReduceKind::Max))
    } else if op == "ReduceMin"@ {
        Some(Operator::Reduce(ReduceKind::Min))
    } else if op == "MaxPool"@ {
        Some(Operator::Pool(PoolKind::Max))
    } else if op == "AveragePool"@ {
        Some(Operator::Pool(PoolKind::Average))
    } else if op == "GlobalAveragePool"@ {
        Some(Operator::Pool(PoolKind::GlobalAverage))
    } else {
        None
    }
}

fn is_numeric(op: &str) -> (r: Option<Operator>)
    ensures
        r == numeric(op@),
{
    if text::same(op, "Sigmoid") {
        Some(Operator::Unary(UnaryOp::Sigmoid))
    } else if text::same(op, "Relu") {
        Some(Operator::Unary(UnaryOp::Relu))
    } else if text::same(op, "Identity") {
        Some(Operator::Unary(UnaryOp::Identity))
    } else if text::same(op, "Erf") {
        Some(Operator::Unary(UnaryOp::Erf))
    } else if text::same(op, "Neg") {
        Some(Operator::Unary(UnaryOp::Neg))
    } else if text::same(op, "Exp") {
        Some(Operator::Unary(UnaryOp::Exp))
    } else if text::same(op, "Log") {
        Some(Operator::Unary(UnaryOp::Log))
    } else if text::same(op, "Sqrt") {
        Some(Operator::Unary(UnaryOp::Sqrt))
    } else if text::same(op, "Abs") {
        Some(Operator::Unary(UnaryOp::Abs))
    } else if text::same(op, "Tanh") {
        Some(Operator::Unary(UnaryOp::Tanh))
    } else if text::same(op, "Sin") {
        Some(Operator::Unary(UnaryOp::Sin))
    } else if text::same(op, "Cos") {
        Some(Operator::Unary(UnaryOp::Cos))
    } else if text::same(op, "Reciprocal") {
        Some(Operator::Unary(UnaryOp::Reciprocal))
    } else if text::same(op, "LeakyRelu") {
        Some(Operator::LeakyRelu)
    } else if text::same(op, "Gelu") {
        Some(Operator::Gelu)
    } else if text::same(op, "Mul") {
        Some(Operator::Binary(BinOp::Mul))
    } else if text::same(op, "Add") {
        Some(Operator::Binary(BinOp::Add))
    } else if text::same(op, "Sub") {
        Some(Operator::Binary(BinOp::Sub))
    } else if text::same(op, "Div") {
        Some(Operator::Binary(BinOp::Div))
    } else if text::same(op, "Pow") {
        Some(Operator::Binary(BinOp::Pow))
    } else if text::same(op, "Min") {
        Some(Operator::Binary(BinOp::Min))
    } else if text::same(op, "Max") {
        Some(Operator::Binary(BinOp::Max))
    } else if text::same(op, "And") {
        Some(Operator::Compare(CmpOp::And))
    } else if text::same(op, "Equal") {
        Some(Operator::Compare(CmpOp::Equal))
    } else if text::same(op, "Less") {
        Some(Operator::Compare(CmpOp::Less))
    } else if text::same(op, "Greater") {
        Some(Operator::Compare(CmpOp::Greater))
    } else if text::same(op, "LessOrEqual") {
        Some(Operator::Compare(CmpOp::LessOrEqual))
    } else if text::same(op, "ReduceMean") {
        Some(Operator::Reduce(ReduceKind::Mean))
    } else if text::same(op, "ReduceSum") {
        Some(Operator::Reduce(ReduceKind::Sum))
    } else if text::same(op, "ReduceMax") {
        Some(Operator::Reduce(ReduceKind::Max))
    } else if text::same(op, "ReduceMin") {
        Some(Operator::Reduce(ReduceKind::Min))
    } else if text::same(op, "MaxPool") {
        Some(Operator::Pool(PoolKind::Max))
    } else if text::same(op, "AveragePool") {
        Some(Operator::Pool(PoolKind::Average))
    } else if text::same(op, "GlobalAveragePool") {
        Some(Operator::Pool(PoolKind::GlobalAverage))
    } else {
        None
    }
}

/// The other operators of the standard domain.
pub open spec fn structural(op: Seq<char>) -> Option<Operator> {
    if op == "Softmax"@ {
        Some(Operator::Softmax)
    } else if op == "LayerNormalization"@ {
        Some(Operator::LayerNorm)
    } else if op == "SimplifiedLayerNormalization"@ {
        Some(Operator::RmsNorm)
    } else if op == "BatchNormalization"@ {
        Some(Operator::BatchNorm)
    } else if op == "If"@ {
        Some(Operator::If)
    } else if op == "Cast"@ {
        Some(Operator::Cast)
    } else if op == "Shape"@ {
        Some(Operator::Shape)
    } else if op == "Reshape"@ {
        Some(Operator::Reshape)
    } else if op == "Unsqueeze"@ {
        Some(Operator::Unsqueeze)
    } else if op == "Squeeze"@ {
        Some(Operator::Squeeze)
    } else if op == "Transpose"@ {
        Some(Operator::Transpose)
    } else if op == "Concat"@ {
        Some(Operator::Concat)
    } else if op == "DynamicQuantizeLinear"@ {
        Some(Operator::DynamicQuantize)
    } else if op == "MatMulInteger"@ {
        Some(Operator::MatMulInteger)
    } else if op == "MatMul"@ {
        Some(Operator::MatMul)
    } else if op == "Gather"@ {
        Some(Operator::Gather)
    } else if op == "Slice"@ {
        Some(Operator::Slice)
    } else if op == "Where"@ {
        Some(Operator::Where)
    } else if op == "Conv"@ {
        Some(Operator::Conv)
    } else if op == "ConvInteger"@ {
        Some(Operator::ConvInteger)
    } else if op == "ConvTranspose"@ {
        Some(Operator::ConvTranspose)
    } else if op == "Mod"@ {
        Some(Operator::Mod)
    } else if op == "QuantizeLinear"@ {
        Some(Operator::Quantize)
    } else if op == "DequantizeLinear"@ {
        Some(Operator::Dequantize)
    } else if op == "Pad"@ {
        Some(Operator::Pad)
    } else if op == "Split"@ {
        Some(Operator::Split)
    } else if op == "Floor"@ {
        Some(Operator::Floor)
    } else if op == "Not"@ {
        Some(Operator::Not)
    } else if op == "GatherElements"@ {
        Some(Operator::GatherElements)
    } else if op == "ScatterND"@ {
        Some(Operator::Scatter)
    } else if op == "TopK"@ {
        Some(Operator::TopK)
    } else if op == "ConstantOfShape"@ {
        Some(Operator::ConstantOfShape)
    } else if op == "Expand"@ {
        Some(Operator::Expand)
    } else if op == "Range"@ {
        Some(Operator::Range)
    } else if op == "Tile"@ {
        Some(Operator::Tile)
    } else if op == "Constant"@ {
        Some(Operator::Constant)
    } else if op == "GridSample"@ {
        Some(Operator::GridSample)
    } else if op == "Flatten"@ {
        Some(Operator::Flatten)
    } else if op == "CumSum"@ {
        Some(Operator::CumSum)
    } else if op == "Gemm"@ {
        Some(Operator::Gemm)
    } else if op == "Resize"@ {
        Some(Operator::Resize)
    } else if op == "Clip"@ {
        Some(Operator::Clip)
    } else {
        None
    }
}

fn is_structural(op: &str) -> (r: Option<Operator>)
    ensures
        r == structural(op@),
{
    if text::same(op, "Softmax") {
        Some(Operator::Softmax)
    } else if text::same(op, "LayerNormalization") {
        Some(Operator::LayerNorm)
    } else if text::same(op, "SimplifiedLayerNormalization") {
        Some(Operator::RmsNorm)
    } else if text::same(op, "BatchNormalization") {
        Some(Operator::BatchNorm)
    } else if text::same(op, "If") {
        Some(Operator::If)
    } else if text::same(op, "Cast") {
        Some(Operator::Cast)
    } else if text::same(op, "Shape") {
        Some(Operator::Shape)
    } else if text::same(op, "Reshape") {
        Some(Operator::Reshape)
    } else if text::same(op, "Unsqueeze") {
        Some(Operator::Unsqueeze)
    } else if text::same(op, "Squeeze") {
        Some(Operator::Squeeze)
    } else if text::same(op, "Transpose") {
        Some(Operator::Transpose)
    } else if text::same(op, "Concat") {
        Some(Operator::Concat)
    } else if text::same(op, "DynamicQuantizeLinear") {
        Some(Operator::DynamicQuantize)
    } else if text::same(op, "MatMulInteger") {
        Some(Operator::MatMulInteger)
    } else if text::same(op, "MatMul") {
        Some(Operator::MatMul)
    } else if text::same(op, "Gather") {
        Some(Operator::Gather)
    } else if text::same(op, "Slice") {
        Some(Operator::Slice)
    } else if text::same(op, "Where") {
        Some(Operator::Where)
    } else if text::same(op, "Conv") {
        Some(Operator::Conv)
    } else if text::same(op, "ConvInteger") {
        Some(Operator::ConvInteger)
    } else if text::same(op, "ConvTranspose") {
        Some(Operator::ConvTranspose)
    } else if text::same(op, "Mod") {
        Some(Operator::Mod)
    } else if text::same(op, "QuantizeLinear") {
        Some(Operator::Quantize)
    } else if text::same(op, "DequantizeLinear") {
        Some(Operator::Dequantize)
    } else if text::same(op, "Pad") {
        Some(Operator::Pad)
    } else if text::same(op, "Split") {
        Some(Operator::Split)
    } else if text::same(op, "Floor") {
        Some(Operator::Floor)
    } else if text::same(op, "Not") {
        Some(Operator::Not)
    } else if text::same(op, "GatherElements") {
        Some(Operator::GatherElements)
    } else if text::same(op, "ScatterND") {
        Some(Operator::Scatter)
    } else if text::same(op, "TopK") {
        Some(Operator::TopK)
    } else if text::same(op, "ConstantOfShape") {
        Some(Operator::ConstantOfShape)
    } else if text::same(op, "Expand") {
        Some(Operator::Expand)
    } else if text::same(op, "Range") {
        Some(Operator::Range)
    } else if text::same(op, "Tile") {
        Some(Operator::Tile)
    } else if text::same(op, "Constant") {
        Some(Operator::Constant)
    } else if text::same(op, "GridSample") {
        Some(Operator::GridSample)
    } else if text::same(op, "Flatten") {
        Some(Operator::Flatten)
    } else if text::same(op, "CumSum") {
        Some(Operator::CumSum)
    } else if text::same(op, "Gemm") {
        Some(Operator::Gemm)
    } else if text::same(op, "Resize") {
        Some(Operator::Resize)
    } else if text::same(op, "Clip") {
        Some(Operator::Clip)
    } else {
        None
    }
}

/// The operators of the `com.microsoft` domain.
pub open spec fn foreign(op: Seq<char>) -> Option<Operator> {
    if op == "SkipSimplifiedLayerNormalization"@ {
        Some(Operator::SkipRmsNorm)
    } else if op == "GroupQueryAttention"@ {
        Some(Operator::Attention)
    } else if op == "MatMulNBits"@ {
        Some(Operator::MatMulNbits)
    } else {
        None
    }
}

fn is_foreign(op: &str) -> (r: Option<Operator>)
    ensures
        r == foreign(op@),
{
    if text::same(op, "SkipSimplifiedLayerNormalization") {
        Some(Operator::SkipRmsNorm)
    } else if text::same(op, "GroupQueryAttention") {
        Some(Operator::Attention)
    } else if text::same(op, "MatMulNBits") {
        Some(Operator::MatMulNbits)
    } else {
        None
    }
}

/// The operator of a node. Only those of the `com.microsoft` domain are told apart by domain.
pub open spec fn operator_of(node: NodeIr) -> Option<Operator> {
    match numeric(node.op@) {
        Some(o) => Some(o),
        None => match structural(node.op@) {
            Some(o) => Some(o),
            None => if node.domain@ == "com.microsoft"@ {
                foreign(node.op@)
            } else {
                None
            },
        },
    }
}

pub fn operator(node: &NodeIr) -> (r: Option<Operator>)
    ensures
        r == operator_of(*node),
{
    let op = node.op.as_str();
    match is_numeric(op) {
        Some(o) => Some(o),
        None => match is_structural(op) {
            Some(o) => Some(o),
            None => if text::same(node.domain.as_str(), "com.microsoft") {
                is_foreign(op)
            } else {
                None
            },
        },
    }
}

/// Whether the node has what its operator asks of attributes and of the number of inputs and
/// outputs, whatever the values.
pub open spec fn equipped(node: NodeIr, operator: Operator) -> bool {
    match operator {
        Operator::Gelu => gelu_of(node) is Some,
        Operator::Resize => node.int_attr("exclude_outside"@, 0) == 0 && resize_mode(node) is Some
            && resize_coord(node) is Some && resize_nearest(node) is Some,
        Operator::Reduce(_) => node.ints_attr("axes"@) matches Some(a) && a.len() == 1,
        Operator::Pad => node.str_attr("mode"@, "constant"@) == "constant"@ && node.inputs@.len()
            >= 2,
        Operator::Slice => node.inputs@.len() >= 3,
        Operator::Reshape => node.inputs@.len() >= 2,
        Operator::TopK => node.inputs@.len() >= 2,
        Operator::BatchNorm => node.inputs@.len() >= 5 && node.outputs@.len() == 1,
        Operator::MatMulInteger => node.inputs@.len() >= 4,
        Operator::MatMul => node.inputs@.len() >= 2,
        Operator::LayerNorm => node.inputs@.len() >= 2,
        Operator::RmsNorm => node.inputs@.len() >= 2,
        Operator::DynamicQuantize => node.inputs@.len() >= 1,
        Operator::Constant => constant_step(node) is Some,
        Operator::SkipRmsNorm => node.inputs@.len() >= 3,
        Operator::Attention => node.inputs@.len() >= 9,
        Operator::MatMulNbits => node.inputs@.len() >= 3,
        _ => true,
    }
}

/// The names of operators that stand side by side differ.
proof fn lemma_names_apart()
    ensures
        "Abs"@.len() == 3,
        "Add"@.len() == 3,
        "And"@.len() == 3,
        "AveragePool"@.len() == 11,
        "BatchNormalization"@.len() == 18,
        "Cast"@.len() == 4,
        "Clip"@.len() == 4,
        "Concat"@.len() == 6,
        "Constant"@.len() == 8,
        "ConstantOfShape"@.len() == 15,
        "Conv"@.len() == 4,
        "ConvInteger"@.len() == 11,
        "ConvTranspose"@.len() == 13,
        "Cos"@.len() == 3,
        "CumSum"@.len() == 6,
        "DequantizeLinear"@.len() == 16,
        "Div"@.len() == 3,
        "DynamicQuantizeLinear"@.len() == 21,
        "Equal"@.len() == 5,
        "Erf"@.len() == 3,
        "Exp"@.len() == 3,
        "Expand"@.len() == 6,
        "Flatten"@.len() == 7,
        "Floor"@.len() == 5,
        "Gather"@.len() == 6,
        "GatherElements"@.len() == 14,
        "Gelu"@.len() == 4,
        "Gemm"@.len() == 4,
        "GlobalAveragePool"@.len() == 17,
        "Greater"@.len() == 7,
        "GridSample"@.len() == 10,
        "GroupQueryAttention"@.len() == 19,
        "Identity"@.len() == 8,
        "If"@.len() == 2,
        "LayerNormalization"@.len() == 18,
        "LeakyRelu"@.len() == 9,
        "Less"@.len() == 4,
        "LessOrEqual"@.len() == 11,
        "Log"@.len() == 3,
        "MatMul"@.len() == 6,
        "MatMulInteger"@.len() == 13,
        "MatMulNBits"@.len() == 11,
        "Max"@.len() == 3,
        "MaxPool"@.len() == 7,
        "Min"@.len() == 3,
        "Mod"@.len() == 3,
        "Mul"@.len() == 3,
        "Neg"@.len() == 3,
        "Not"@.len() == 3,
        "Pad"@.len() == 3,
        "Pow"@.len() == 3,
        "QuantizeLinear"@.len() == 14,
        "Range"@.len() == 5,
        "Reciprocal"@.len() == 10,
        "ReduceMax"@.len() == 9,
        "ReduceMean"@.len() == 10,
        "ReduceMin"@.len() == 9,
        "ReduceSum"@.len() == 9,
        "Relu"@.len() == 4,
        "Reshape"@.len() == 7,
        "Resize"@.len() == 6,
        "ScatterND"@.len() == 9,
        "Shape"@.len() == 5,
        "Sigmoid"@.len() == 7,
        "SimplifiedLayerNormalization"@.len() == 28,
        "Sin"@.len() == 3,
        "SkipSimplifiedLayerNormalization"@.len() == 32,
        "Slice"@.len() == 5,
        "Softmax"@.len() == 7,
        "Split"@.len() == 5,
        "Sqrt"@.len() == 4,
        "Squeeze"@.len() == 7,
        "Sub"@.len() == 3,
        "Tanh"@.len() == 4,
        "Tile"@.len() == 4,
        "TopK"@.len() == 4,
        "Transpose"@.len() == 9,
        "Unsqueeze"@.len() == 9,
        "Where"@.len() == 5,
        "MatMulNBits"@ != "AveragePool"@,
        "MatMulNBits"@ != "ConvInteger"@,
        "MatMulNBits"@ != "LessOrEqual"@,
        "ReduceMax"@ != "ReduceSum"@,
        "ReduceMin"@ != "ReduceSum"@,
        "ReduceMin"@ != "ReduceMax"@,
        "GridSample"@ != "ReduceMean"@,
        "ScatterND"@ != "ReduceSum"@,
        "ScatterND"@ != "ReduceMax"@,
        "ScatterND"@ != "ReduceMin"@,
        "Conv"@ != "Gelu"@,
        "ConvInteger"@ != "AveragePool"@,
        "MatMulInteger"@ != "ConvTranspose"@,
        "LayerNormalization"@ != "BatchNormalization"@,
        "MatMul"@ != "Resize"@,
        "Reshape"@ != "MaxPool"@,
        "TopK"@ != "Gelu"@,
        "TopK"@ != "Conv"@,
        "Resize"@ != "Concat"@,
        "Resize"@ != "CumSum"@,
        "Resize"@ != "Expand"@,
        "Resize"@ != "Gather"@,
        "MaxPool"@ != "Flatten"@,
        "MaxPool"@ != "Greater"@,
        "MaxPool"@ != "Sigmoid"@,
        "MaxPool"@ != "Softmax"@,
        "MaxPool"@ != "Squeeze"@,
        "AveragePool"@ != "LessOrEqual"@,
        "ReduceMean"@ != "Reciprocal"@,
        "ReduceSum"@ != "LeakyRelu"@,
        "ReduceSum"@ != "Transpose"@,
        "ReduceSum"@ != "Unsqueeze"@,
        "ReduceMax"@ != "LeakyRelu"@,
        "ReduceMax"@ != "Transpose"@,
        "ReduceMax"@ != "Unsqueeze"@,
        "ReduceMin"@ != "LeakyRelu"@,
        "ReduceMin"@ != "Transpose"@,
        "ReduceMin"@ != "Unsqueeze"@,
        "GridSample"@ != "Reciprocal"@,
        "Gelu"@ != "Cast"@,
        "Gelu"@ != "Clip"@,
        "Gelu"@ != "Gemm"@,
        "Gelu"@ != "Less"@,
        "Gelu"@ != "Relu"@,
        "Gelu"@ != "Sqrt"@,
        "Gelu"@ != "Tanh"@,
        "Gelu"@ != "Tile"@,
        "ScatterND"@ != "LeakyRelu"@,
        "ScatterND"@ != "Transpose"@,
        "ScatterND"@ != "Unsqueeze"@,
        "Conv"@ != "Cast"@,
        "Conv"@ != "Clip"@,
        "Conv"@ != "Gemm"@,
        "Conv"@ != "Less"@,
        "Conv"@ != "Relu"@,
        "Conv"@ != "Sqrt"@,
        "Conv"@ != "Tanh"@,
        "Conv"@ != "Tile"@,
        "ConvInteger"@ != "LessOrEqual"@,
        "Pad"@ != "Abs"@,
        "Pad"@ != "Add"@,
        "Pad"@ != "And"@,
        "Pad"@ != "Cos"@,
        "Pad"@ != "Div"@,
        "Pad"@ != "Erf"@,
        "Pad"@ != "Exp"@,
        "Pad"@ != "Log"@,
        "Pad"@ != "Max"@,
        "Pad"@ != "Min"@,
        "Pad"@ != "Mod"@,
        "Pad"@ != "Mul"@,
        "Pad"@ != "Neg"@,
        "Pad"@ != "Not"@,
        "Pad"@ != "Pow"@,
        "Pad"@ != "Sin"@,
        "Pad"@ != "Sub"@,
        "Slice"@ != "Equal"@,
        "Slice"@ != "Floor"@,
        "Slice"@ != "Range"@,
        "Slice"@ != "Shape"@,
        "Slice"@ != "Split"@,
        "Slice"@ != "Where"@,
        "MatMul"@ != "Concat"@,
        "MatMul"@ != "CumSum"@,
        "MatMul"@ != "Expand"@,
        "MatMul"@ != "Gather"@,
        "Reshape"@ != "Flatten"@,
        "Reshape"@ != "Greater"@,
        "Reshape"@ != "Sigmoid"@,
        "Reshape"@ != "Softmax"@,
        "Reshape"@ != "Squeeze"@,
        "TopK"@ != "Cast"@,
        "TopK"@ != "Clip"@,
        "TopK"@ != "Gemm"@,
        "TopK"@ != "Less"@,
        "TopK"@ != "Relu"@,
        "TopK"@ != "Sqrt"@,
        "TopK"@ != "Tanh"@,
        "TopK"@ != "Tile"@,
        "Constant"@ != "Identity"@,
{
    reveal_strlit("Abs");
    reveal_strlit("Add");
    reveal_strlit("And");
    reveal_strlit("AveragePool");
    reveal_strlit("BatchNormalization");
    reveal_strlit("Cast");
    reveal_strlit("Clip");
    reveal_strlit("Concat");
    reveal_strlit("Constant");
    reveal_strlit("ConstantOfShape");
    reveal_strlit("Conv");
    reveal_strlit("ConvInteger");
    reveal_strlit("ConvTranspose");
    reveal_strlit("Cos");
    reveal_strlit("CumSum");
    reveal_strlit("DequantizeLinear");
    reveal_strlit("Div");
    reveal_strlit("DynamicQuantizeLinear");
    reveal_strlit("Equal");
    reveal_strlit("Erf");
    reveal_strlit("Exp");
    reveal_strlit("Expand");
    reveal_strlit("Flatten");
    reveal_strlit("Floor");
    reveal_strlit("Gather");
    reveal_strlit("GatherElements");
    reveal_strlit("Gelu");
    reveal_strlit("Gemm");
    reveal_strlit("GlobalAveragePool");
    reveal_strlit("Greater");
    reveal_strlit("GridSample");
    reveal_strlit("GroupQueryAttention");
    reveal_strlit("Identity");
    reveal_strlit("If");
    reveal_strlit("LayerNormalization");
    reveal_strlit("LeakyRelu");
    reveal_strlit("Less");
    reveal_strlit("LessOrEqual");
    reveal_strlit("Log");
    reveal_strlit("MatMul");
    reveal_strlit("MatMulInteger");
    reveal_strlit("MatMulNBits");
    reveal_strlit("Max");
    reveal_strlit("MaxPool");
    reveal_strlit("Min");
    reveal_strlit("Mod");
    reveal_strlit("Mul");
    reveal_strlit("Neg");
    reveal_strlit("Not");
    reveal_strlit("Pad");
    reveal_strlit("Pow");
    reveal_strlit("QuantizeLinear");
    reveal_strlit("Range");
    reveal_strlit("Reciprocal");
    reveal_strlit("ReduceMax");
    reveal_strlit("ReduceMean");
    reveal_strlit("ReduceMin");
    reveal_strlit("ReduceSum");
    reveal_strlit("Relu");
    reveal_strlit("Reshape");
    reveal_strlit("Resize");
    reveal_strlit("ScatterND");
    reveal_strlit("Shape");
    reveal_strlit("Sigmoid");
    reveal_strlit("SimplifiedLayerNormalization");
    reveal_strlit("Sin");
    reveal_strlit("SkipSimplifiedLayerNormalization");
    reveal_strlit("Slice");
    reveal_strlit("Softmax");
    reveal_strlit("Split");
    reveal_strlit("Sqrt");
    reveal_strlit("Squeeze");
    reveal_strlit("Sub");
    reveal_strlit("Tanh");
    reveal_strlit("Tile");
    reveal_strlit("TopK");
    reveal_strlit("Transpose");
    reveal_strlit("Unsqueeze");
    reveal_strlit("Where");
    assert("MatMulNBits"@[0] != "AveragePool"@[0]);
    assert("MatMulNBits"@[0] != "ConvInteger"@[0]);
    assert("MatMulNBits"@[0] != "LessOrEqual"@[0]);
    assert("ReduceMax"@[6] != "ReduceSum"@[6]);
    assert("ReduceMin"@[6] != "ReduceSum"@[6]);
    assert("ReduceMin"@[7] != "ReduceMax"@[7]);
    assert("GridSample"@[0] != "ReduceMean"@[0]);
    assert("ScatterND"@[0] != "ReduceSum"@[0]);
    assert("ScatterND"@[0] != "ReduceMax"@[0]);
    assert("ScatterND"@[0] != "ReduceMin"@[0]);
    assert("Conv"@[0] != "Gelu"@[0]);
    assert("ConvInteger"@[0] != "AveragePool"@[0]);
    assert("MatMulInteger"@[0] != "ConvTranspose"@[0]);
    assert("LayerNormalization"@[0] != "BatchNormalization"@[0]);
    assert("MatMul"@[0] != "Resize"@[0]);
    assert("Reshape"@[0] != "MaxPool"@[0]);
    assert("TopK"@[0] != "Gelu"@[0]);
    assert("TopK"@[0] != "Conv"@[0]);
    assert("Resize"@[0] != "Concat"@[0]);
    assert("Resize"@[0] != "CumSum"@[0]);
    assert("Resize"@[0] != "Expand"@[0]);
    assert("Resize"@[0] != "Gather"@[0]);
    assert("MaxPool"@[0] != "Flatten"@[0]);
    assert("MaxPool"@[0] != "Greater"@[0]);
    assert("MaxPool"@[0] != "Sigmoid"@[0]);
    assert("MaxPool"@[0] != "Softmax"@[0]);
    assert("MaxPool"@[0] != "Squeeze"@[0]);
    assert("AveragePool"@[0] != "LessOrEqual"@[0]);
    assert("ReduceMean"@[2] != "Reciprocal"@[2]);
    assert("ReduceSum"@[0] != "LeakyRelu"@[0]);
    assert("ReduceSum"@[0] != "Transpose"@[0]);
    assert("ReduceSum"@[0] != "Unsqueeze"@[0]);
    assert("ReduceMax"@[0] != "LeakyRelu"@[0]);
    assert("ReduceMax"@[0] != "Transpose"@[0]);
    assert("ReduceMax"@[0] != "Unsqueeze"@[0]);
    assert("ReduceMin"@[0] != "LeakyRelu"@[0]);
    assert("ReduceMin"@[0] != "Transpose"@[0]);
    assert("ReduceMin"@[0] != "Unsqueeze"@[0]);
    assert("GridSample"@[0] != "Reciprocal"@[0]);
    assert("Gelu"@[0] != "Cast"@[0]);
    assert("Gelu"@[0] != "Clip"@[0]);
    assert("Gelu"@[2] != "Gemm"@[2]);
    assert("Gelu"@[0] != "Less"@[0]);
    assert("Gelu"@[0] != "Relu"@[0]);
    assert("Gelu"@[0] != "Sqrt"@[0]);
    assert("Gelu"@[0] != "Tanh"@[0]);
    assert("Gelu"@[0] != "Tile"@[0]);
    assert("ScatterND"@[0] != "LeakyRelu"@[0]);
    assert("ScatterND"@[0] != "Transpose"@[0]);
    assert("ScatterND"@[0] != "Unsqueeze"@[0]);
    assert("Conv"@[1] != "Cast"@[1]);
    assert("Conv"@[1] != "Clip"@[1]);
    assert("Conv"@[0] != "Gemm"@[0]);
    assert("Conv"@[0] != "Less"@[0]);
    assert("Conv"@[0] != "Relu"@[0]);
    assert("Conv"@[0] != "Sqrt"@[0]);
    assert("Conv"@[0] != "Tanh"@[0]);
    assert("Conv"@[0] != "Tile"@[0]);
    assert("ConvInteger"@[0] != "LessOrEqual"@[0]);
    assert("Pad"@[0] != "Abs"@[0]);
    assert("Pad"@[0] != "Add"@[0]);
    assert("Pad"@[0] != "And"@[0]);
    assert("Pad"@[0] != "Cos"@[0]);
    assert("Pad"@[0] != "Div"@[0]);
    assert("Pad"@[0] != "Erf"@[0]);
    assert("Pad"@[0] != "Exp"@[0]);
    assert("Pad"@[0] != "Log"@[0]);
    assert("Pad"@[0] != "Max"@[0]);
    assert("Pad"@[0] != "Min"@[0]);
    assert("Pad"@[0] != "Mod"@[0]);
    assert("Pad"@[0] != "Mul"@[0]);
    assert("Pad"@[0] != "Neg"@[0]);
    assert("Pad"@[0] != "Not"@[0]);
    assert("Pad"@[1] != "Pow"@[1]);
    assert("Pad"@[0] != "Sin"@[0]);
    assert("Pad"@[0] != "Sub"@[0]);
    assert("Slice"@[0] != "Equal"@[0]);
    assert("Slice"@[0] != "Floor"@[0]);
    assert("Slice"@[0] != "Range"@[0]);
    assert("Slice"@[1] != "Shape"@[1]);
    assert("Slice"@[1] != "Split"@[1]);
    assert("Slice"@[0] != "Where"@[0]);
    assert("MatMul"@[0] != "Concat"@[0]);
    assert("MatMul"@[0] != "CumSum"@[0]);
    assert("MatMul"@[0] != "Expand"@[0]);
    assert("MatMul"@[0] != "Gather"@[0]);
    assert("Reshape"@[0] != "Flatten"@[0]);
    assert("Reshape"@[0] != "Greater"@[0]);
    assert("Reshape"@[0] != "Sigmoid"@[0]);
    assert("Reshape"@[0] != "Softmax"@[0]);
    assert("Reshape"@[0] != "Squeeze"@[0]);
    assert("TopK"@[0] != "Cast"@[0]);
    assert("TopK"@[0] != "Clip"@[0]);
    assert("TopK"@[0] != "Gemm"@[0]);
    assert("TopK"@[0] != "Less"@[0]);
    assert("TopK"@[0] != "Relu"@[0]);
    assert("TopK"@[0] != "Sqrt"@[0]);
    assert("TopK"@[1] != "Tanh"@[1]);
    assert("TopK"@[1] != "Tile"@[1]);
    assert("Constant"@[0] != "Identity"@[0]);
}

/// **No node is taken that cannot be run**: a node that counts as implemented has an operator,
/// and has what the operator asks of its attributes and of the number of its inputs.
pub proof fn law_implemented_runs(node: NodeIr)
    requires
        implemented_node(node),
    ensures
        operator_of(node) is Some,
        equipped(node, operator_of(node)->0),
{
    lemma_names_apart();
    reveal_strlit("com.microsoft");
    if node.domain@.len() == 0 {
        assert(implemented(node.op@));
        assert(attributes_ok(node));
    } else {
        assert(contributed(node));
    }
}

/// Without what its operator asks of attributes and inputs a node is refused, whatever the values:
/// nothing less than [`equipped`] would do. (`Resize`, `Slice` and `TopK` may ask for another of
/// their inputs first.)
#[verifier::rlimit(40)]
pub proof fn law_unequipped_is_refused(
    env: ExecutionEnv,
    cache: KernelCache,
    fetched: NameMap<HostTensor>,
    node: NodeIr,
    limits: Limits,
    operator: Operator,
)
    requires
        !equipped(node, operator),
        !(operator is Resize || operator is Slice || operator is TopK),
    ensures
        operator_work(env, cache, fetched, node, limits, operator) is None,
{
    reveal(operator_work);
    match operator {
        Operator::Pad => {
            if node.inputs@.len() < 2 {
                assert(ints_in(env, fetched, node, 1) is Refused);
            }
        },
        Operator::Reshape => {
            assert(ints_in(env, fetched, node, 1) is Refused);
        },
        _ => {},
    }
}

/// **No operator is left out**: an operator of the standard domain that can be run is among
/// those that count as implemented.
pub proof fn law_runs_implemented(node: NodeIr)
    requires
        operator_of(node) is Some,
        node.domain@.len() == 0,
    ensures
        implemented(node.op@),
{
    reveal_strlit("com.microsoft");
}

// --- the work of a node -----------------------------------------------------------------

/// What the device gives: the edge of a tile of a matrix product, and the longest context that
/// attention can look back on.
#[derive(Debug, Clone, Copy, PartialEq, Eq, Structural)]
pub struct Limits {
    pub tile: u32,
    pub max_context: u32,
}

/// What a node of an operator needs next, given what was read back for it.
#[verifier::opaque]
pub open spec fn operator_work(
    env: ExecutionEnv,
    cache: KernelCache,
    fetched: NameMap<HostTensor>,
    node: NodeIr,
    limits: Limits,
    operator: Operator,
) -> Option<WorkView> {
    match operator {
        Operator::Unary(op) => unary_step(env, node, op),
        Operator::LeakyRelu => unary_step(
            env,
            node,
            UnaryOp::LeakyRelu(node.float_attr("alpha"@, LEAKY_SLOPE)),
        ),
        Operator::Gelu => match gelu_of(node) {
            Some(op) => unary_step(env, node, op),
            None => None,
        },
        Operator::Binary(op) => binary_step(env, fetched, node, op),
        Operator::Compare(op) => compare_step(env, fetched, node, op),
        Operator::Reduce(kind) => reduce_step(env, fetched, node, kind),
        Operator::Pool(kind) => pool_step(env, node, kind),
        Operator::Softmax => softmax_step(env, node),
        Operator::LayerNorm => layernorm_step(env, node),
        Operator::RmsNorm => rmsnorm_step(env, node),
        Operator::BatchNorm => batchnorm_step(env, node),
        Operator::If => if_step(env, fetched, node),
        Operator::Cast => cast_step(env, fetched, node),
        Operator::Shape => shape_step(env, node),
        Operator::Reshape => reshape_step(env, fetched, node),
        Operator::Unsqueeze => unsqueeze_step(env, fetched, node),
        Operator::Squeeze => squeeze_step(env, fetched, node),
        Operator::Transpose => transpose_step(env, cache, fetched, node),
        Operator::Concat => concat_step(env, fetched, node),
        Operator::DynamicQuantize => dynamic_quantize_step(env, node),
        Operator::MatMulInteger => matmul_integer_step(env, cache, fetched, node),
        Operator::MatMul => matmul_step(env, node),
        Operator::Gather => gather_step(env, fetched, node),
        Operator::Slice => slice_step(env, fetched, node),
        Operator::Where => where_step(env, fetched, node),
        Operator::Conv => conv_step(env, node),
        Operator::ConvInteger => conv_integer_step(env, node),
        Operator::ConvTranspose => conv_transpose_step(env, node),
        Operator::Mod => mod_step(env, fetched, node),
        Operator::Quantize => quantize_step(env, node),
        Operator::Dequantize => dequantize_step(env, node),
        Operator::Pad => pad_step(env, fetched, node),
        Operator::Split => split_step(env, fetched, node),
        Operator::Floor => floor_step(env, fetched, node),
        Operator::Not => not_step(env, fetched, node),
        Operator::GatherElements => gather_elements_step(env, fetched, node),
        Operator::Scatter => scatter_step(env, fetched, node),
        Operator::TopK => top_k_step(env, fetched, node),
        Operator::ConstantOfShape => constant_of_shape_step(env, fetched, node),
        Operator::Expand => expand_step(env, fetched, node),
        Operator::Range => range_step(env, fetched, node),
        Operator::Tile => tile_step(env, fetched, node),
        Operator::Constant => constant_step(node),
        Operator::GridSample => grid_sample_step(env, node),
        Operator::Flatten => flatten_step(env, fetched, node),
        Operator::CumSum => cumsum_step(env, fetched, node),
        Operator::Gemm => gemm_step(env, node, limits.tile),
        Operator::Resize => resize_step(env, fetched, node),
        Operator::Clip => clip_step(env, fetched, node),
        Operator::SkipRmsNorm => skip_rmsnorm_step(env, node),
        Operator::Attention => attention_step(env, node, limits.max_context),
        Operator::MatMulNbits => nbits_step(env, node),
    }
}

/// What a node needs next; nothing can be done where its operator is not known.
pub open spec fn work_of(
    env: ExecutionEnv,
    cache: KernelCache,
    fetched: NameMap<HostTensor>,
    node: NodeIr,
    limits: Limits,
) -> Option<WorkView> {
    match operator_of(node) {
        Some(o) => operator_work(env, cache, fetched, node, limits, o),
        None => None,
    }
}

fn work_on(
    env: &ExecutionEnv,
    cache: &KernelCache,
    fetched: &NameMap<HostTensor>,
    node: &NodeIr,
    limits: Limits,
    operator: Operator,
) -> (r: Result<Work>)
    requires
        limits.tile > 0,
    ensures
        works(r, operator_work(*env, *cache, *fetched, *node, limits, operator)),
{
    reveal(operator_work);
    match operator {
        Operator::Unary(op) => step_unary(env, node, op),
        Operator::LeakyRelu => step_unary(env, node, leaky_relu(node)),
        Operator::Gelu => match gelu(node) {
            Ok(op) => step_unary(env, node, op),
            Err(e) => Err(e),
        },
        Operator::Binary(op) => step_binary(env, fetched, node, op),
        Operator::Compare(op) => step_compare(env, fetched, node, op),
        Operator::Reduce(kind) => step_reduce(env, fetched, node, kind),
        Operator::Pool(kind) => step_pool(env, node, kind),
        Operator::Softmax => step_softmax(env, node),
        Operator::LayerNorm => step_layernorm(env, node),
        Operator::RmsNorm => step_rmsnorm(env, node),
        Operator::BatchNorm => step_batchnorm(env, node),
        Operator::If => step_if(env, fetched, node),
        Operator::Cast => step_cast(env, fetched, node),
        Operator::Shape => step_shape(env, node),
        Operator::Reshape => step_reshape(env, fetched, node),
        Operator::Unsqueeze => step_unsqueeze(env, fetched, node),
        Operator::Squeeze => step_squeeze(env, fetched, node),
        Operator::Transpose => step_transpose(env, cache, fetched, node),
        Operator::Concat => step_concat(env, fetched, node),
        Operator::DynamicQuantize => step_dynamic_quantize(env, node),
        Operator::MatMulInteger => step_matmul_integer(env, cache, fetched, node),
        Operator::MatMul => step_matmul(env, node),
        Operator::Gather => step_gather(env, fetched, node),
        Operator::Slice => step_slice(env, fetched, node),
        Operator::Where => step_where(env, fetched, node),
        Operator::Conv => step_conv(env, node),
        Operator::ConvInteger => step_conv_integer(env, node),
        Operator::ConvTranspose => step_conv_transpose(env, node),
        Operator::Mod => step_mod(env, fetched, node),
        Operator::Quantize => step_quantize(env, node),
        Operator::Dequantize => step_dequantize(env, node),
        Operator::Pad => step_pad(env, fetched, node),
        Operator::Split => step_split(env, fetched, node),
        Operator::Floor => step_floor(env, fetched, node),
        Operator::Not => step_not(env, fetched, node),
        Operator::GatherElements => step_gather_elements(env, fetched, node),
        Operator::Scatter => step_scatter(env, fetched, node),
        Operator::TopK => step_top_k(env, fetched, node),
        Operator::ConstantOfShape => step_constant_of_shape(env, fetched, node),
        Operator::Expand => step_expand(env, fetched, node),
        Operator::Range => step_range(env, fetched, node),
        Operator::Tile => step_tile(env, fetched, node),
        Operator::Constant => step_constant(node),
        Operator::GridSample => step_grid_sample(env, node),
        Operator::Flatten => step_flatten(env, fetched, node),
        Operator::CumSum => step_cumsum(env, fetched, node),
        Operator::Gemm => step_gemm(env, node, limits.tile),
        Operator::Resize => step_resize(env, fetched, node),
        Operator::Clip => step_clip(env, fetched, node),
        Operator::SkipRmsNorm => step_skip_rmsnorm(env, node),
        Operator::Attention => step_attention(env, node, limits.max_context),
        Operator::MatMulNbits => step_nbits(env, node),
    }
}

/// What a node needs next, given what was read back for it.
pub fn work(
    env: &ExecutionEnv,
    cache: &KernelCache,
    fetched: &NameMap<HostTensor>,
    node: &NodeIr,
    limits: Limits,
) -> (r: Result<Work>)
    requires
        limits.tile > 0,
    ensures
        works(r, work_of(*env, *cache, *fetched, *node, limits)),
{
    match operator(node) {
        Some(o) => work_on(env, cache, fetched, node, limits, o),
        None => Err(backend_error("this operator is not implemented")),
    }
}

} // verus!
