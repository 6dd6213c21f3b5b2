//! Which nodes can be run.

use crate::graph::{AttrValue, NodeIr};
use crate::names::{lemma_position_bounds, position};
use crate::text;
use vstd::prelude::*;

verus! {

/// Whether the standard operator `op` can be run, for suitable attributes.
pub open spec fn implemented(op: Seq<char>) -> bool {
    ||| op == "Sigmoid"@
    ||| op == "Relu"@
    ||| op == "Softmax"@
    ||| op == "LayerNormalization"@
    ||| op == "Cast"@
    ||| op == "Mul"@
    ||| op == "Add"@
    ||| op == "Sub"@
    ||| op == "Div"@
    ||| op == "Shape"@
    ||| op == "Reshape"@
    ||| op == "Unsqueeze"@
    ||| op == "Squeeze"@
    ||| op == "Transpose"@
    ||| op == "Concat"@
    ||| op == "DynamicQuantizeLinear"@
    ||| op == "MatMulInteger"@
    ||| op == "MatMul"@
    ||| op == "Gather"@
    ||| op == "Slice"@
    ||| op == "Where"@
    ||| op == "Conv"@
    ||| op == "ConvInteger"@
    ||| op == "ConvTranspose"@
    ||| op == "Mod"@
    ||| op == "QuantizeLinear"@
    ||| op == "DequantizeLinear"@
    ||| op == "Pad"@
    ||| op == "Split"@
    ||| op == "Floor"@
    ||| op == "Not"@
    ||| op == "And"@
    ||| op == "Equal"@
    ||| op == "Less"@
    ||| op == "Greater"@
    ||| op == "LessOrEqual"@
    ||| op == "Identity"@
    ||| op == "BatchNormalization"@
    ||| op == "SimplifiedLayerNormalization"@
    ||| op == "If"@
    ||| op == "Gelu"@
    ||| op == "GatherElements"@
    ||| op == "ScatterND"@
    ||| op == "TopK"@
    ||| op == "ConstantOfShape"@
    ||| op == "Expand"@
    ||| op == "Range"@
    ||| op == "Tile"@
    ||| op == "Constant"@
    ||| op == "MaxPool"@
    ||| op == "AveragePool"@
    ||| op == "GlobalAveragePool"@
    ||| op == "ReduceMean"@
    ||| op == "ReduceSum"@
    ||| op == "ReduceMax"@
    ||| op == "ReduceMin"@
    ||| op == "Flatten"@
    ||| op == "LeakyRelu"@
    ||| op == "CumSum"@
    ||| op == "GridSample"@
    ||| op == "Gemm"@
    ||| op == "Resize"@
    ||| op == "Clip"@
    ||| op == "Erf"@
    ||| op == "Neg"@
    ||| op == "Exp"@
    ||| op == "Log"@
    ||| op == "Sqrt"@
    ||| op == "Abs"@
    ||| op == "Tanh"@
    ||| op == "Sin"@
    ||| op == "Cos"@
    ||| op == "Reciprocal"@
    ||| op == "Pow"@
    ||| op == "Min"@
    ||| op == "Max"@
}

/// Whether the standard operator `op` can be run, for suitable attributes.
pub fn is_implemented(op: &str) -> (r: bool)
    ensures
        r == implemented(op@),
{
    text::same(op, "Sigmoid")
        || text::same(op, "Relu")
        || text::same(op, "Softmax")
        || text::same(op, "LayerNormalization")
        || text::same(op, "Cast")
        || text::same(op, "Mul")
        || text::same(op, "Add")
        || text::same(op, "Sub")
        || text::same(op, "Div")
        || text::same(op, "Shape")
        || text::same(op, "Reshape")
        || text::same(op, "Unsqueeze")
        || text::same(op, "Squeeze")
        || text::same(op, "Transpose")
        || text::same(op, "Concat")
        || text::same(op, "DynamicQuantizeLinear")
        || text::same(op, "MatMulInteger")
        || text::same(op, "MatMul")
        || text::same(op, "Gather")
        || text::same(op, "Slice")
        || text::same(op, "Where")
        || text::same(op, "Conv")
        || text::same(op, "ConvInteger")
        || text::same(op, "ConvTranspose")
        || text::same(op, "Mod")
        || text::same(op, "QuantizeLinear")
        || text::same(op, "DequantizeLinear")
        || text::same(op, "Pad")
        || text::same(op, "Split")
        || text::same(op, "Floor")
        || text::same(op, "Not")
        || text::same(op, "And")
        || text::same(op, "Equal")
        || text::same(op, "Less")
        || text::same(op, "Greater")
        || text::same(op, "LessOrEqual")
        || text::same(op, "Identity")
        || text::same(op, "BatchNormalization")
        || text::same(op, "SimplifiedLayerNormalization")
        || text::same(op, "If")
        || text::same(op, "Gelu")
        || text::same(op, "GatherElements")
        || text::same(op, "ScatterND")
        || text::same(op, "TopK")
        || text::same(op, "ConstantOfShape")
        || text::same(op, "Expand")
        || text::same(op, "Range")
        || text::same(op, "Tile")
        || text::same(op, "Constant")
        || text::same(op, "MaxPool")
        || text::same(op, "AveragePool")
        || text::same(op, "GlobalAveragePool")
        || text::same(op, "ReduceMean")
        || text::same(op, "ReduceSum")
        || text::same(op, "ReduceMax")
        || text::same(op, "ReduceMin")
        || text::same(op, "Flatten")
        || text::same(op, "LeakyRelu")
        || text::same(op, "CumSum")
        || text::same(op, "GridSample")
        || text::same(op, "Gemm")
        || text::same(op, "Resize")
        || text::same(op, "Clip")
        || text::same(op, "Erf")
        || text::same(op, "Neg")
        || text::same(op, "Exp")
        || text::same(op, "Log")
        || text::same(op, "Sqrt")
        || text::same(op, "Abs")
        || text::same(op, "Tanh")
        || text::same(op, "Sin")
        || text::same(op, "Cos")
        || text::same(op, "Reciprocal")
        || text::same(op, "Pow")
        || text::same(op, "Min")
        || text::same(op, "Max")
}

// --- attributes -------------------------------------------------------------------------

/// Whether `s` is one of four texts.
pub open spec fn one_of(
    s: Seq<char>,
    a: Seq<char>,
    b: Seq<char>,
    c: Seq<char>,
    d: Seq<char>,
) -> bool {
    s == a || s == b || s == c || s == d
}

fn is_one_of(s: &str, a: &str, b: &str, c: &str, d: &str) -> (r: bool)
    ensures
        r == one_of(s@, a@, b@, c@, d@),
{
    text::same(s, a) || text::same(s, b) || text::same(s, c) || text::same(s, d)
}

/// Operators of the `com.microsoft` domain that can be run, with what they need.
pub open spec fn contributed(node: NodeIr) -> bool {
    node.domain@ == "com.microsoft"@ && if node.op@ == "MatMulNBits"@ {
        node.opt_int_attr("bits"@) == Some(4i64) && node.opt_int_attr("block_size"@) == Some(32i64)
            && node.inputs@.len() == 3
    } else if node.op@ == "SkipSimplifiedLayerNormalization"@ {
        node.inputs@.len() >= 3 && node.outputs@.len() == 1
    } else if node.op@ == "GroupQueryAttention"@ {
        node.inputs@.len() >= 9 && node.outputs@.len() == 3 && node.opt_int_attr("num_heads"@) is Some
            && node.opt_int_attr("kv_num_heads"@) is Some
    } else {
        false
    }
}

fn is_contributed(node: &NodeIr) -> (r: bool)
    ensures
        r == contributed(*node),
{
    let op = node.op.as_str();
    if !text::same(node.domain.as_str(), "com.microsoft") {
        return false;
    }
    if text::same(op, "MatMulNBits") {
        let bits: bool = match node.attr_opt_i64("bits") {
            Some(b) => b == 4,
            None => false,
        };
        let blocks: bool = match node.attr_opt_i64("block_size") {
            Some(b) => b == 32,
            None => false,
        };
        bits && blocks && node.inputs.len() == 3
    } else if text::same(op, "SkipSimplifiedLayerNormalization") {
        node.inputs.len() >= 3 && node.outputs.len() == 1
    } else if text::same(op, "GroupQueryAttention") {
        node.inputs.len() >= 9 && node.outputs.len() == 3 && node.attr_opt_i64(
            "num_heads",
        ).is_some() && node.attr_opt_i64("kv_num_heads").is_some()
    } else {
        false
    }
}

/// Whether the attributes of a standard operator are among those that can be run, and it has the
/// inputs that it cannot do without. Branches are not looked at.
pub open spec fn attributes_ok(node: NodeIr) -> bool {
    let op = node.op@;
    if op == "Resize"@ {
        &&& node.int_attr("exclude_outside"@, 0) == 0
        &&& one_of(
            node.str_attr("mode"@, "nearest"@),
            "nearest"@,
            "linear"@,
            "cubic"@,
            "cubic"@,
        )
        &&& one_of(
            node.str_attr("coordinate_transformation_mode"@, "half_pixel"@),
            "half_pixel"@,
            "asymmetric"@,
            "align_corners"@,
            "pytorch_half_pixel"@,
        )
        &&& one_of(
            node.str_attr("nearest_mode"@, "round_prefer_floor"@),
            "round_prefer_floor"@,
            "round_prefer_ceil"@,
            "floor"@,
            "ceil"@,
        )
    } else if op == "MaxPool"@ || op == "AveragePool"@ {
        node.int_attr("ceil_mode"@, 0) == 0 && node.outputs@.len() == 1
    } else if op == "ReduceMean"@ || op == "ReduceSum"@ || op == "ReduceMax"@ || op == "ReduceMin"@ {
        node.ints_attr("axes"@) matches Some(a) && a.len() == 1
    } else if op == "GridSample"@ {
        &&& node.str_attr("mode"@, "bilinear"@) == "bilinear"@
        &&& one_of(
            node.str_attr("padding_mode"@, "zeros"@),
            "zeros"@,
            "border"@,
            "border"@,
            "border"@,
        )
    } else if op == "Gelu"@ {
        one_of(node.str_attr("approximate"@, "none"@), "none"@, "tanh"@, "tanh"@, "tanh"@)
    } else if op == "ScatterND"@ {
        node.str_attr("reduction"@, "none"@) == "none"@
    } else if op == "Conv"@ || op == "ConvInteger"@ {
        one_of(
            node.str_attr("auto_pad"@, "NOTSET"@),
            "NOTSET"@,
            "VALID"@,
            "SAME_UPPER"@,
            "SAME_LOWER"@,
        )
    } else if op == "ConvTranspose"@ {
        one_of(node.str_attr("auto_pad"@, "NOTSET"@), "NOTSET"@, "VALID"@, "VALID"@, "VALID"@)
            && !node.attrs.has("output_shape"@)
    } else if op == "Pad"@ {
        node.str_attr("mode"@, "constant"@) == "constant"@ && node.inputs@.len() >= 2
    } else if op == "BatchNormalization"@ {
        node.inputs@.len() >= 5 && node.outputs@.len() == 1
    } else if op == "MatMulInteger"@ {
        node.inputs@.len() >= 4
    } else if op == "LayerNormalization"@ {
        node.inputs@.len() >= 2 && node.int_attr("axis"@, (-1) as i64) >= -1
    } else if op == "Slice"@ {
        node.inputs@.len() >= 3
    } else if op == "MatMul"@ || op == "SimplifiedLayerNormalization"@ || op == "Reshape"@ || op
        == "TopK"@ {
        node.inputs@.len() >= 2
    } else if op == "DynamicQuantizeLinear"@ {
        node.inputs@.len() >= 1
    } else if op == "Constant"@ {
        node.attrs.has("value"@) && node.attrs.at("value"@) is Tensor
    } else {
        true
    }
}

fn has_good_attributes(node: &NodeIr) -> (r: bool)
    ensures
        r == attributes_ok(*node),
{
    let op = node.op.as_str();
    if text::same(op, "Resize") {
        node.attr_i64("exclude_outside", 0) == 0 && is_one_of(
            node.attr_str("mode", "nearest"),
            "nearest",
            "linear",
            "cubic",
            "cubic",
        ) && is_one_of(
            node.attr_str("coordinate_transformation_mode", "half_pixel"),
            "half_pixel",
            "asymmetric",
            "align_corners",
            "pytorch_half_pixel",
        ) && is_one_of(
            node.attr_str("nearest_mode", "round_prefer_floor"),
            "round_prefer_floor",
            "round_prefer_ceil",
            "floor",
            "ceil",
        )
    } else if text::same(op, "MaxPool") || text::same(op, "AveragePool") {
        node.attr_i64("ceil_mode", 0) == 0 && node.outputs.len() == 1
    } else if text::same(op, "ReduceMean") || text::same(op, "ReduceSum") || text::same(
        op,
        "ReduceMax",
    ) || text::same(op, "ReduceMin") {
        match node.attr_ints("axes") {
            Some(a) => a.len() == 1,
            None => false,
        }
    } else if text::same(op, "GridSample") {
        text::same(node.attr_str("mode", "bilinear"), "bilinear") && is_one_of(
            node.attr_str("padding_mode", "zeros"),
            "zeros",
            "border",
            "border",
            "border",
        )
    } else if text::same(op, "Gelu") {
        is_one_of(node.attr_str("approximate", "none"), "none", "tanh", "tanh", "tanh")
    } else if text::same(op, "ScatterND") {
        text::same(node.attr_str("reduction", "none"), "none")
    } else if text::same(op, "Conv") || text::same(op, "ConvInteger") {
        is_one_of(
            node.attr_str("auto_pad", "NOTSET"),
            "NOTSET",
            "VALID",
            "SAME_UPPER",
            "SAME_LOWER",
        )
    } else if text::same(op, "ConvTranspose") {
        is_one_of(node.attr_str("auto_pad", "NOTSET"), "NOTSET", "VALID", "VALID", "VALID")
            && !node.attrs.contains_key("output_shape")
    } else if text::same(op, "Pad") {
        text::same(node.attr_str("mode", "constant"), "constant") && node.inputs.len() >= 2
    } else if text::same(op, "BatchNormalization") {
        node.inputs.len() >= 5 && node.outputs.len() == 1
    } else if text::same(op, "MatMulInteger") {
        node.inputs.len() >= 4
    } else if text::same(op, "LayerNormalization") {
        node.inputs.len() >= 2 && node.attr_i64("axis", -1) >= -1
    } else if text::same(op, "Slice") {
        node.inputs.len() >= 3
    } else if text::same(op, "MatMul") || text::same(op, "SimplifiedLayerNormalization")
        || text::same(op, "Reshape") || text::same(op, "TopK") {
        node.inputs.len() >= 2
    } else if text::same(op, "DynamicQuantizeLinear") {
        node.inputs.len() >= 1
    } else if text::same(op, "Constant") {
        match node.attrs.get("value") {
            Some(v) => v.as_tensor().is_some(),
            None => false,
        }
    } else {
        true
    }
}

// --- nodes ------------------------------------------------------------------------------

/// Whether the node can be run: its operator, its attributes, and for `If` every node of both
/// branches.
pub open spec fn implemented_node(node: NodeIr) -> bool
    decreases node,
{
    if node.domain@.len() > 0 {
        contributed(node)
    } else {
        &&& implemented(node.op@)
        &&& attributes_ok(node)
        &&& node.op@ == "If"@ ==> {
            let a = position(node.attrs.entries@, "then_branch"@);
            let b = position(node.attrs.entries@, "else_branch"@);
            &&& 0 <= a < node.attrs.entries@.len()
            &&& 0 <= b < node.attrs.entries@.len()
            &&& match node.attrs.entries@[a].1 {
                AttrValue::Graph(g) => forall|i: int|
                    0 <= i < g.nodes@.len() ==> implemented_node(#[trigger] g.nodes@[i]),
                _ => false,
            }
            &&& match node.attrs.entries@[b].1 {
                AttrValue::Graph(g) => forall|i: int|
                    0 <= i < g.nodes@.len() ==> implemented_node(#[trigger] g.nodes@[i]),
                _ => false,
            }
        }
    }
}

/// Whether every node of the branch under `name` can be run.
pub open spec fn branch_implemented(node: NodeIr, name: Seq<char>) -> bool {
    let a = position(node.attrs.entries@, name);
    &&& 0 <= a < node.attrs.entries@.len()
    &&& match node.attrs.entries@[a].1 {
        AttrValue::Graph(g) => forall|i: int|
            0 <= i < g.nodes@.len() ==> implemented_node(#[trigger] g.nodes@[i]),
        _ => false,
    }
}

fn is_implemented_branch(node: &NodeIr, name: &str) -> (r: bool)
    ensures
        r == branch_implemented(*node, name@),
    decreases node, 0int,
{
    match node.attrs.find(name) {
        None => {
            proof {
                lemma_position_bounds(node.attrs.entries@, name@);
            }
            false
        },
        Some(p) => match &node.attrs.entries[p].1 {
            AttrValue::Graph(g) => {
                let n: usize = g.nodes.len();
                let mut i: usize = 0;
                while i < n
                    invariant
                        i <= n,
                        n == g.nodes@.len(),
                        p < node.attrs.entries@.len(),
                        p == position(node.attrs.entries@, name@),
                        node.attrs.entries@[p as int].1 == AttrValue::Graph(*g),
                        forall|k: int| 0 <= k < i ==> implemented_node(#[trigger] g.nodes@[k]),
                    decreases n - i,
                {
                    proof {
                        assert(decreases_to!(*node => node.attrs));
                        assert(decreases_to!(node.attrs => node.attrs.entries));
                        assert(decreases_to!(node.attrs.entries => node.attrs.entries@[p as int]));
                        assert(decreases_to!(node.attrs.entries@[p as int] => node.attrs.entries@[p as int].1));
                        assert(decreases_to!(node.attrs.entries@[p as int].1 => node.attrs.entries@[p as int].1->Graph_0));
                        assert(decreases_to!(**g => g.nodes));
                        assert(decreases_to!(g.nodes => g.nodes@[i as int]));
                    }
                    if !is_implemented_node(&g.nodes[i]) {
                        assert(!implemented_node(g.nodes@[i as int]));
                        return false;
                    }
                    i += 1;
                }
                true
            },
            _ => false,
        },
    }
}

/// Whether the node can be run. The name of the operator alone does not tell: some modes are
/// not covered, and a name belongs to its domain.
pub fn is_implemented_node(node: &NodeIr) -> (r: bool)
    ensures
        r == implemented_node(*node),
    decreases node, 1int,
{
    if !node.domain.as_str().is_empty() {
        return is_contributed(node);
    }
    if !is_implemented(node.op.as_str()) || !has_good_attributes(node) {
        return false;
    }
    if text::same(node.op.as_str(), "If") {
        is_implemented_branch(node, "then_branch") && is_implemented_branch(node, "else_branch")
    } else {
        true
    }
}

/// A node of the standard domain that can be run has an operator that can be run, whatever its
/// attributes.
pub proof fn law_node_has_operator(node: NodeIr)
    requires
        node.domain@.len() == 0,
        implemented_node(node),
    ensures
        implemented(node.op@),
{
}

/// The same name in another domain is another operator: outside of the standard domain nothing
/// runs because a standard operator of its name does.
pub proof fn law_domains_apart(node: NodeIr)
    requires
        node.domain@.len() > 0,
        node.domain@ != "com.microsoft"@,
    ensures
        !implemented_node(node),
{
}

} // verus!
