//! Layer normalization written out in simple operators, and its replacement by one node.
//!
//! The pattern is `ReduceMean`, `Sub`, `Pow`, `ReduceMean`, `Add`, `Sqrt`, `Div`, `Mul` and an
//! optional `Add`. It normalizes along the last axis, and scale and bias are constants of one
//! dimension, of the same length above one.

use crate::graph::{AttrValue, GraphIr, NodeIr};
use crate::host_ops::FLOAT;
use crate::names::NameMap;
use crate::rewrite::{
    attr_int, attr_ints_are, const_of, constant, consumers, consumers_of, escapes, int_attr_of,
    ints_attr, is_seen, lemma_readers, no_nodes, only_consumer, rebuild, rebuilt, scalar_f32,
    scalar_f32_of, sole_consumer,
};
use crate::text;
use crate::text::texts;
use vstd::prelude::*;

verus! {

/// The bits of 2.0.
pub const TWO: u32 = 0x4000_0000;

/// Whether the node takes the mean along the last axis and keeps the dimension.
pub open spec fn last_axis_mean(node: NodeIr) -> bool {
    &&& node.is_op("ReduceMean"@)
    &&& ints_attr(node, "axes"@) == Some(seq![(-1) as i64])
    &&& int_attr_of(node, "keepdims"@) != Some(0i64)
}

fn is_last_axis_mean(node: &NodeIr) -> (r: bool)
    ensures
        r == last_axis_mean(*node),
{
    let last: [i64; 1] = [-1];
    assert(last@ =~= seq![(-1) as i64]);
    node.is_standard("ReduceMean") && attr_ints_are(node, "axes", &last) && (match attr_int(
        node,
        "keepdims",
    ) {
        Some(k) => k != 0,
        None => true,
    })
}

/// The operand of a node with two inputs that is not `known`.
pub open spec fn other_operand(node: NodeIr, known: Seq<char>) -> Option<Seq<char>> {
    if node.inputs@.len() != 2 {
        None
    } else if node.inputs@[0]@ == known {
        Some(node.inputs@[1]@)
    } else if node.inputs@[1]@ == known {
        Some(node.inputs@[0]@)
    } else {
        None
    }
}

/// The operand of a node with two inputs that is not `known`.
pub fn other_input<'a>(node: &'a NodeIr, known: &str) -> (r: Option<&'a String>)
    ensures
        match r {
            Some(s) => other_operand(*node, known@) == Some(s@),
            None => other_operand(*node, known@) is None,
        },
{
    if node.inputs.len() != 2 {
        None
    } else if text::same(node.inputs[0].as_str(), known) {
        Some(&node.inputs[1])
    } else if text::same(node.inputs[1].as_str(), known) {
        Some(&node.inputs[0])
    } else {
        None
    }
}

/// The length of a constant of one dimension that can serve as scale or bias.
pub open spec fn channels_of(ir: GraphIr, name: Seq<char>) -> Option<i64> {
    match const_of(ir, name) {
        Some(t) => if t.dtype == FLOAT && t.shape.len() == 1 && t.shape[0] > 1 {
            Some(t.shape[0])
        } else {
            None
        },
        None => None,
    }
}

/// The length of a constant of one dimension that can serve as scale or bias.
pub fn per_channel_len(ir: &GraphIr, name: &str) -> (r: Option<i64>)
    ensures
        r == channels_of(*ir, name@),
{
    match constant(ir, name) {
        Some(t) => if t.dtype == FLOAT && t.shape.len() == 1 && t.shape[0] > 1 {
            Some(t.shape[0])
        } else {
            None
        },
        None => None,
    }
}

/// Whether the first input of the node is `name`.
pub open spec fn starts_with(node: NodeIr, name: Seq<char>) -> bool {
    node.inputs@.len() > 0 && node.inputs@[0]@ == name
}

pub fn first_input_is(node: &NodeIr, name: &str) -> (r: bool)
    ensures
        r == starts_with(*node, name@),
{
    node.inputs.len() > 0 && text::same(node.inputs[0].as_str(), name)
}

/// Whether the inputs of the node are `a` and `b`.
pub open spec fn inputs_are(node: NodeIr, a: Seq<char>, b: Seq<char>) -> bool {
    node.inputs@.len() == 2 && node.inputs@[0]@ == a && node.inputs@[1]@ == b
}

fn has_inputs(node: &NodeIr, a: &str, b: &str) -> (r: bool)
    ensures
        r == inputs_are(*node, a@, b@),
{
    node.inputs.len() == 2 && text::same(node.inputs[0].as_str(), a) && text::same(
        node.inputs[1].as_str(),
        b,
    )
}

// --- the pattern ------------------------------------------------------------------------

/// Deviation from the mean and its square: the nodes `Sub` and `Pow`.
pub struct Head {
    pub sub: usize,
    pub pow: usize,
}

/// Standard deviation: `ReduceMean`, `Add` and `Sqrt`, with the number that is added.
pub struct Root {
    pub var: usize,
    pub eps: usize,
    pub sqrt: usize,
    pub epsilon: u32,
}

/// The place of the `Pow` among the two readers of the deviation.
pub open spec fn square_of(ir: GraphIr, r: Seq<usize>) -> Option<usize> {
    if ir.nodes@[r[0] as int].is_op("Pow"@) {
        Some(r[0])
    } else if ir.nodes@[r[1] as int].is_op("Pow"@) {
        Some(r[1])
    } else {
        None
    }
}

/// The start of a pattern whose first node is `root`.
pub open spec fn head_of(ir: GraphIr, root: int) -> Option<Head> {
    let nodes = ir.nodes@;
    let mean = nodes[root];
    if !last_axis_mean(mean) || mean.inputs@.len() == 0 {
        None
    } else {
        match sole_consumer(ir, mean.output_name(0)) {
            None => None,
            Some(sub) => {
                let s = nodes[sub as int];
                let dev = s.output_name(0);
                let r = consumers_of(ir, dev);
                if !s.is_op("Sub"@) || !inputs_are(s, mean.input_name(0), mean.output_name(0))
                    || escapes(ir, dev) || r.len() != 2 {
                    None
                } else {
                    match square_of(ir, r) {
                        None => None,
                        Some(pow) => {
                            let p = nodes[pow as int];
                            if starts_with(p, dev) && scalar_f32_of(ir, p.input_name(1)) == Some(
                                TWO,
                            ) {
                                Some(Head { sub, pow })
                            } else {
                                None
                            }
                        },
                    }
                }
            },
        }
    }
}

/// The middle of a pattern, behind the node `pow`.
pub open spec fn root_of(ir: GraphIr, pow: int) -> Option<Root> {
    let nodes = ir.nodes@;
    let squared = nodes[pow].output_name(0);
    match sole_consumer(ir, squared) {
        None => None,
        Some(var) => {
            let v = nodes[var as int];
            if !last_axis_mean(v) || !starts_with(v, squared) {
                None
            } else {
                match sole_consumer(ir, v.output_name(0)) {
                    None => None,
                    Some(eps) => {
                        let e = nodes[eps as int];
                        match (
                            other_operand(e, v.output_name(0)),
                            sole_consumer(ir, e.output_name(0)),
                        ) {
                            (Some(o), Some(sqrt)) => {
                                let q = nodes[sqrt as int];
                                match scalar_f32_of(ir, o) {
                                    Some(epsilon) if e.is_op("Add"@) && q.is_op("Sqrt"@)
                                        && starts_with(q, e.output_name(0)) => Some(
                                        Root { var, eps, sqrt, epsilon },
                                    ),
                                    _ => None,
                                }
                            },
                            _ => None,
                        }
                    },
                }
            }
        },
    }
}

/// A pattern: its nodes, and what replaces them.
pub struct LayerNorm {
    pub members: Seq<usize>,
    pub inputs: Seq<Seq<char>>,
    pub output: Seq<char>,
    pub epsilon: u32,
}

/// The `Div` behind the node `sqrt`, where it divides the deviation.
pub open spec fn quotient_of(ir: GraphIr, sub: int, sqrt: int) -> Option<usize> {
    let dev = ir.nodes@[sub].output_name(0);
    let root = ir.nodes@[sqrt].output_name(0);
    match sole_consumer(ir, root) {
        Some(div) => if ir.nodes@[div as int].is_op("Div"@) && inputs_are(
            ir.nodes@[div as int],
            dev,
            root,
        ) && consumers_of(ir, dev).contains(div) {
            Some(div)
        } else {
            None
        },
        None => None,
    }
}

/// The `Mul` behind the node `div`, with the name of the scale.
pub open spec fn scaling_of(ir: GraphIr, div: int) -> Option<(usize, Seq<char>)> {
    let name = ir.nodes@[div].output_name(0);
    match sole_consumer(ir, name) {
        Some(mul) => match other_operand(ir.nodes@[mul as int], name) {
            Some(scale) => if ir.nodes@[mul as int].is_op("Mul"@) && channels_of(ir, scale) is Some {
                Some((mul, scale))
            } else {
                None
            },
            None => None,
        },
        None => None,
    }
}

/// The `Add` behind the node `mul`, with the name of the bias, where it suits the scale.
pub open spec fn bias_of(ir: GraphIr, mul: int, scale: Seq<char>) -> Option<(usize, Seq<char>)> {
    let name = ir.nodes@[mul].output_name(0);
    match sole_consumer(ir, name) {
        Some(add) => match other_operand(ir.nodes@[add as int], name) {
            Some(bias) => if ir.nodes@[add as int].is_op("Add"@) && channels_of(ir, bias)
                == channels_of(ir, scale) {
                Some((add, bias))
            } else {
                None
            },
            None => None,
        },
        None => None,
    }
}

/// The pattern that starts at node `root`.
pub open spec fn pattern_at(ir: GraphIr, root: int) -> Option<LayerNorm> {
    let nodes = ir.nodes@;
    match head_of(ir, root) {
        None => None,
        Some(h) => match root_of(ir, h.pow as int) {
            None => None,
            Some(q) => match quotient_of(ir, h.sub as int, q.sqrt as int) {
                None => None,
                Some(div) => match scaling_of(ir, div as int) {
                    None => None,
                    Some((mul, scale)) => {
                        let members = seq![
                            root as usize,
                            h.sub,
                            h.pow,
                            q.var,
                            q.eps,
                            q.sqrt,
                            div,
                            mul,
                        ];
                        let x = nodes[root].input_name(0);
                        match bias_of(ir, mul as int, scale) {
                            None => Some(
                                LayerNorm {
                                    members,
                                    inputs: seq![x, scale],
                                    output: nodes[mul as int].output_name(0),
                                    epsilon: q.epsilon,
                                },
                            ),
                            Some((add, bias)) => Some(
                                LayerNorm {
                                    members: members.push(add),
                                    inputs: seq![x, scale, bias],
                                    output: nodes[add as int].output_name(0),
                                    epsilon: q.epsilon,
                                },
                            ),
                        }
                    },
                },
            },
        },
    }
}

/// Whether `node` is the layer normalization that replaces the pattern.
pub open spec fn is_fused(node: NodeIr, m: LayerNorm) -> bool {
    &&& node.is_op("LayerNormalization"@)
    &&& node.since_version == 17
    &&& node.name@ == m.output + "_fused_LayerNormalization"@
    &&& texts(node.inputs@) == m.inputs
    &&& texts(node.outputs@) == seq![m.output]
    &&& node.attrs.wf()
    &&& node.attrs.map() == Map::<Seq<char>, AttrValue>::empty().insert(
        "axis"@,
        AttrValue::Int((-1) as i64),
    ).insert("epsilon"@, AttrValue::Float(m.epsilon))
}

/// A matched pattern: the nodes that it takes up and the node that replaces them.
struct Match {
    members: Vec<usize>,
    fused: NodeIr,
}

/// The first output of the node, or an empty name.
pub fn first_output(node: &NodeIr) -> (r: String)
    ensures
        r@ == node.output_name(0),
{
    if node.outputs.len() > 0 {
        node.outputs[0].clone()
    } else {
        let e = String::new();
        assert(e@ =~= Seq::<char>::empty());
        e
    }
}

/// The name of input `i`, or an empty name.
pub fn input_at(node: &NodeIr, i: usize) -> (r: String)
    ensures
        r@ == node.input_name(i as int),
{
    if i < node.inputs.len() {
        node.inputs[i].clone()
    } else {
        let e = String::new();
        assert(e@ =~= Seq::<char>::empty());
        e
    }
}

fn find_head(ir: &GraphIr, root: usize) -> (r: Option<Head>)
    requires
        root < ir.nodes@.len(),
    ensures
        r == head_of(*ir, root as int),
        r matches Some(h) ==> h.sub < ir.nodes@.len() && h.pow < ir.nodes@.len(),
{
    let mean: &NodeIr = &ir.nodes[root];
    if !is_last_axis_mean(mean) || mean.inputs.len() == 0 {
        return None;
    }
    let mean_out = first_output(mean);
    let sub: usize = match only_consumer(ir, mean_out.as_str()) {
        Some(i) => i,
        None => {
            return None;
        },
    };
    let s: &NodeIr = &ir.nodes[sub];
    let dev = first_output(s);
    let r = consumers(ir, dev.as_str());
    if !s.is_standard("Sub") || !has_inputs(s, mean.inputs[0].as_str(), mean_out.as_str())
        || r.len() != 2 || is_seen(ir, dev.as_str()) {
        return None;
    }
    let pow: usize = if ir.nodes[r[0]].is_standard("Pow") {
        r[0]
    } else if ir.nodes[r[1]].is_standard("Pow") {
        r[1]
    } else {
        return None;
    };
    let p: &NodeIr = &ir.nodes[pow];
    let exponent = input_at(p, 1);
    match scalar_f32(ir, exponent.as_str()) {
        Some(e) => if first_input_is(p, dev.as_str()) && e == TWO {
            Some(Head { sub, pow })
        } else {
            None
        },
        None => None,
    }
}

fn find_root(ir: &GraphIr, pow: usize) -> (r: Option<Root>)
    requires
        pow < ir.nodes@.len(),
    ensures
        r == root_of(*ir, pow as int),
        r matches Some(q) ==> q.var < ir.nodes@.len() && q.eps < ir.nodes@.len() && q.sqrt
            < ir.nodes@.len(),
{
    let squared = first_output(&ir.nodes[pow]);
    let var: usize = match only_consumer(ir, squared.as_str()) {
        Some(i) => i,
        None => {
            return None;
        },
    };
    let v: &NodeIr = &ir.nodes[var];
    if !is_last_axis_mean(v) || !first_input_is(v, squared.as_str()) {
        return None;
    }
    let variance = first_output(v);
    let eps: usize = match only_consumer(ir, variance.as_str()) {
        Some(i) => i,
        None => {
            return None;
        },
    };
    let e: &NodeIr = &ir.nodes[eps];
    let shifted = first_output(e);
    match (other_input(e, variance.as_str()), only_consumer(ir, shifted.as_str())) {
        (Some(o), Some(sqrt)) => {
            let q: &NodeIr = &ir.nodes[sqrt];
            match scalar_f32(ir, o.as_str()) {
                Some(epsilon) => if e.is_standard("Add") && q.is_standard("Sqrt") && first_input_is(
                    q,
                    shifted.as_str(),
                ) {
                    Some(Root { var, eps, sqrt, epsilon })
                } else {
                    None
                },
                None => None,
            }
        },
        _ => None,
    }
}

fn has_index(list: &Vec<usize>, x: usize) -> (r: bool)
    ensures
        r == list@.contains(x),
{
    let n: usize = list.len();
    let mut i: usize = 0;
    while i < n
        invariant
            i <= n,
            n == list@.len(),
            forall|k: int| 0 <= k < i ==> list@[k] != x,
        decreases n - i,
    {
        if list[i] == x {
            return true;
        }
        i += 1;
    }
    false
}

fn find_quotient(ir: &GraphIr, sub: usize, sqrt: usize) -> (r: Option<usize>)
    requires
        sub < ir.nodes@.len(),
        sqrt < ir.nodes@.len(),
    ensures
        r == quotient_of(*ir, sub as int, sqrt as int),
        r matches Some(d) ==> d < ir.nodes@.len(),
{
    let dev = first_output(&ir.nodes[sub]);
    let root = first_output(&ir.nodes[sqrt]);
    match only_consumer(ir, root.as_str()) {
        Some(div) => if ir.nodes[div].is_standard("Div") && has_inputs(
            &ir.nodes[div],
            dev.as_str(),
            root.as_str(),
        ) && has_index(&consumers(ir, dev.as_str()), div) {
            Some(div)
        } else {
            None
        },
        None => None,
    }
}

fn find_scaling(ir: &GraphIr, div: usize) -> (r: Option<(usize, String)>)
    requires
        div < ir.nodes@.len(),
    ensures
        match r {
            Some(m) => scaling_of(*ir, div as int) == Some((m.0, m.1@)) && m.0 < ir.nodes@.len(),
            None => scaling_of(*ir, div as int) is None,
        },
{
    let name = first_output(&ir.nodes[div]);
    match only_consumer(ir, name.as_str()) {
        Some(mul) => match other_input(&ir.nodes[mul], name.as_str()) {
            Some(scale) => if ir.nodes[mul].is_standard("Mul") && per_channel_len(
                ir,
                scale.as_str(),
            ).is_some() {
                Some((mul, scale.clone()))
            } else {
                None
            },
            None => None,
        },
        None => None,
    }
}

fn find_bias(ir: &GraphIr, mul: usize, scale: &str) -> (r: Option<(usize, String)>)
    requires
        mul < ir.nodes@.len(),
        channels_of(*ir, scale@) is Some,
    ensures
        match r {
            Some(m) => bias_of(*ir, mul as int, scale@) == Some((m.0, m.1@)) && m.0 < ir.nodes@.len(),
            None => bias_of(*ir, mul as int, scale@) is None,
        },
{
    let name = first_output(&ir.nodes[mul]);
    match only_consumer(ir, name.as_str()) {
        Some(add) => match other_input(&ir.nodes[add], name.as_str()) {
            Some(bias) => {
                let same = match (per_channel_len(ir, bias.as_str()), per_channel_len(ir, scale)) {
                    (Some(a), Some(b)) => a == b,
                    _ => false,
                };
                if ir.nodes[add].is_standard("Add") && same {
                    Some((add, bias.clone()))
                } else {
                    None
                }
            },
            None => None,
        },
        None => None,
    }
}

/// The node that replaces a pattern.
fn fused_node(inputs: Vec<String>, output: String, epsilon: u32, Ghost(m): Ghost<LayerNorm>) -> (r: NodeIr)
    requires
        texts(inputs@) == m.inputs,
        output@ == m.output,
        epsilon == m.epsilon,
    ensures
        is_fused(r, m),
{
    let mut attrs: NameMap<AttrValue> = NameMap::new();
    attrs.insert(text::owned("axis"), AttrValue::Int(-1));
    attrs.insert(text::owned("epsilon"), AttrValue::Float(epsilon));
    let name = text::joined(output.as_str(), "_fused_LayerNormalization");
    let mut outputs: Vec<String> = Vec::new();
    outputs.push(output);
    let domain = String::new();
    proof {
        assert(texts(outputs@) =~= seq![m.output]);
        assert(domain@ =~= Seq::<char>::empty());
    }
    NodeIr {
        domain,
        op: text::owned("LayerNormalization"),
        since_version: 17,
        name,
        inputs,
        outputs,
        attrs,
    }
}

/// The pattern that starts at node `root`, and its replacement.
fn match_layernorm(ir: &GraphIr, root: usize) -> (r: Option<Match>)
    requires
        root < ir.nodes@.len(),
    ensures
        match r {
            Some(m) => {
                &&& pattern_at(*ir, root as int) matches Some(p) && m.members@ == p.members
                    && is_fused(m.fused, p)
                &&& m.members@.len() > 0
                &&& forall|i: int|
                    0 <= i < m.members@.len() ==> (#[trigger] m.members@[i]) < ir.nodes@.len()
            },
            None => pattern_at(*ir, root as int) is None,
        },
{
    let h = match find_head(ir, root) {
        Some(h) => h,
        None => {
            return None;
        },
    };
    let q = match find_root(ir, h.pow) {
        Some(q) => q,
        None => {
            return None;
        },
    };
    let div: usize = match find_quotient(ir, h.sub, q.sqrt) {
        Some(d) => d,
        None => {
            return None;
        },
    };
    let (mul, scale) = match find_scaling(ir, div) {
        Some(m) => m,
        None => {
            return None;
        },
    };
    let bias = find_bias(ir, mul, scale.as_str());
    let ghost p = pattern_at(*ir, root as int)->0;
    let mut members: Vec<usize> = Vec::new();
    members.push(root);
    members.push(h.sub);
    members.push(h.pow);
    members.push(q.var);
    members.push(q.eps);
    members.push(q.sqrt);
    members.push(div);
    members.push(mul);
    let mut inputs: Vec<String> = Vec::new();
    inputs.push(input_at(&ir.nodes[root], 0));
    inputs.push(scale);
    let output = match bias {
        Some((add, b)) => {
            members.push(add);
            inputs.push(b);
            first_output(&ir.nodes[add])
        },
        None => first_output(&ir.nodes[mul]),
    };
    proof {
        assert(members@ =~= p.members);
        assert(texts(inputs@) =~= p.inputs);
    }
    let fused = fused_node(inputs, output, q.epsilon, Ghost(p));
    Some(Match { members, fused })
}

// --- replacing the patterns -------------------------------------------------------------

/// Whether one of the patterns takes up node `i`.
pub open spec fn claims(ms: Seq<LayerNorm>, i: usize) -> bool {
    exists|j: int| 0 <= j < ms.len() && (#[trigger] ms[j]).members.contains(i)
}

/// Whether the pattern takes up no node that the others do.
pub open spec fn is_free(ms: Seq<LayerNorm>, m: LayerNorm) -> bool {
    forall|k: int| 0 <= k < m.members.len() ==> !claims(ms, #[trigger] m.members[k])
}

/// The patterns that start below `k`, each only where it is free of the earlier ones.
pub open spec fn patterns(ir: GraphIr, k: int) -> Seq<LayerNorm>
    decreases k,
{
    if k <= 0 {
        Seq::empty()
    } else {
        let rest = patterns(ir, k - 1);
        match pattern_at(ir, k - 1) {
            Some(m) if is_free(rest, m) => rest.push(m),
            _ => rest,
        }
    }
}

/// The last of a list of nodes.
pub open spec fn last_of(members: Seq<usize>) -> usize
    decreases members.len(),
{
    if members.len() <= 1 {
        members[0]
    } else {
        let rest = last_of(members.drop_last());
        if members.last() > rest {
            members.last()
        } else {
            rest
        }
    }
}

/// The pattern, if any, whose last node is `i`.
pub open spec fn ends_at(ms: Seq<LayerNorm>, i: int) -> bool {
    exists|j: int| 0 <= j < ms.len() && last_of((#[trigger] ms[j]).members) == i
}

/// Which nodes go: those that a pattern takes up, but for its last.
pub open spec fn dropped_by(ms: Seq<LayerNorm>, n: nat) -> Seq<bool> {
    Seq::new(n, |i: int| claims(ms, i as usize) && !ends_at(ms, i))
}

/// Whether the replacements are the fused nodes, each at the last node of its pattern.
pub open spec fn replaced_by(ms: Seq<LayerNorm>, replaced: Seq<Option<NodeIr>>) -> bool {
    forall|i: int|
        0 <= i < replaced.len() ==> match #[trigger] replaced[i] {
            Some(n) => exists|j: int|
                0 <= j < ms.len() && last_of((#[trigger] ms[j]).members) == i && is_fused(n, ms[j]),
            None => !ends_at(ms, i),
        }
}

/// Whether `now` is the graph with its layer normalizations fused.
pub open spec fn fuses_to(ir: GraphIr, now: Seq<NodeIr>) -> bool {
    let n = ir.nodes@.len();
    let ms = patterns(ir, n as int);
    exists|replaced: Seq<Option<NodeIr>>|
        #![trigger replaced_by(ms, replaced)]
        replaced.len() == n && replaced_by(ms, replaced) && now == rebuilt(
            ir.nodes@,
            dropped_by(ms, n),
            replaced,
            n as int,
        )
}

pub proof fn lemma_last_of(members: Seq<usize>)
    requires
        members.len() > 0,
    ensures
        members.contains(last_of(members)),
        forall|i: int| 0 <= i < members.len() ==> (#[trigger] members[i]) <= last_of(members),
    decreases members.len(),
{
    if members.len() > 1 {
        let rest = members.drop_last();
        lemma_last_of(rest);
        let j = rest.index_of(last_of(rest));
        assert(members[j] == last_of(rest));
        assert(members[members.len() - 1] == members.last());
        assert forall|i: int| 0 <= i < members.len() implies (#[trigger] members[i]) <= last_of(
            members,
        ) by {
            if i < rest.len() {
                assert(rest[i] == members[i]);
            }
        }
    } else {
        assert(members[0] == last_of(members));
    }
}

fn latest(members: &Vec<usize>) -> (r: usize)
    requires
        members@.len() > 0,
    ensures
        r == last_of(members@),
{
    let mut r: usize = members[0];
    let n: usize = members.len();
    let mut i: usize = 1;
    while i < n
        invariant
            1 <= i <= n,
            n == members@.len(),
            r == last_of(members@.take(i as int)),
        decreases n - i,
    {
        assert(members@.take(i + 1).drop_last() =~= members@.take(i as int));
        if members[i] > r {
            r = members[i];
        }
        i += 1;
    }
    assert(members@.take(n as int) =~= members@);
    r
}

/// Whether a graph is another with its decomposed normalizations fused, `r` of them.
pub open spec fn layernorm_fused(before: GraphIr, after: GraphIr, r: int) -> bool {
    &&& after.initializers == before.initializers
    &&& after.inputs == before.inputs
    &&& after.outputs == before.outputs
    &&& r == patterns(before, before.nodes@.len() as int).len()
    &&& fuses_to(before, after.nodes@)
}

/// Replaces every written-out layer normalization by one node. Returns how many.
pub fn fuse_layernorm(ir: &mut GraphIr) -> (r: usize)
    ensures
        layernorm_fused(*old(ir), *final(ir), r as int),
{
    let n: usize = ir.nodes.len();
    let ghost g = *ir;
    let mut claimed: Vec<bool> = vec![false; n];
    let mut replaced = no_nodes(n);
    let mut count: usize = 0;
    let ghost mut ms: Seq<LayerNorm> = Seq::empty();
    let mut root: usize = 0;
    while root < n
        invariant
            root <= n,
            n == ir.nodes@.len(),
            *ir == g,
            g == *old(ir),
            claimed@.len() == n,
            replaced@.len() == n,
            ms == patterns(g, root as int),
            count == ms.len(),
            count <= root,
            forall|i: int| 0 <= i < n ==> (#[trigger] claimed@[i] <==> claims(ms, i as usize)),
            replaced_by(ms, replaced@),
            forall|j: int| 0 <= j < ms.len() ==> (#[trigger] ms[j]).members.len() > 0,
        decreases n - root,
    {
        let ghost before = ms;
        let ghost slots = replaced@;
        match match_layernorm(ir, root) {
            Some(m) => {
                let ghost p = pattern_at(g, root as int)->0;
                let k: usize = m.members.len();
                let mut free = true;
                let mut j: usize = 0;
                while j < k
                    invariant
                        j <= k,
                        k == m.members@.len(),
                        claimed@.len() == n,
                        m.members@ == p.members,
                        forall|i: int|
                            0 <= i < m.members@.len() ==> (#[trigger] m.members@[i]) < n,
                        forall|i: int|
                            0 <= i < n ==> (#[trigger] claimed@[i] <==> claims(ms, i as usize)),
                        free <==> forall|i: int|
                            0 <= i < j ==> !claims(ms, #[trigger] p.members[i]),
                    decreases k - j,
                {
                    let i: usize = m.members[j];
                    if claimed[i] {
                        free = false;
                    }
                    assert(claimed@[i as int] <==> claims(ms, p.members[j as int]));
                    j += 1;
                }
                if free {
                    let ghost flags = claimed@;
                    let mut j: usize = 0;
                    while j < k
                        invariant
                            j <= k,
                            k == m.members@.len(),
                            claimed@.len() == n,
                            flags.len() == n,
                            forall|i: int|
                                0 <= i < m.members@.len() ==> (#[trigger] m.members@[i]) < n,
                            forall|i: int|
                                0 <= i < n ==> (#[trigger] claimed@[i] <==> flags[i]
                                    || m.members@.take(j as int).contains(i as usize)),
                        decreases k - j,
                    {
                        let ghost mid = claimed@;
                        let i: usize = m.members[j];
                        claimed.set(i, true);
                        proof {
                            assert(m.members@.take(j + 1) =~= m.members@.take(j as int).push(i));
                            assert forall|q: int| 0 <= q < n implies (#[trigger] claimed@[q]
                                <==> flags[q] || m.members@.take(j + 1).contains(q as usize)) by {
                                lemma_index_push(m.members@.take(j as int), i, q as usize);
                                assert(mid[q] <==> flags[q] || m.members@.take(j as int).contains(
                                    q as usize,
                                ));
                            }
                        }
                        j += 1;
                    }
                    let slot: usize = latest(&m.members);
                    proof {
                        assert(m.members@.take(k as int) =~= m.members@);
                        lemma_last_of(m.members@);
                        let q = m.members@.index_of(slot);
                        assert(m.members@[q] == slot);
                    }
                    replaced.set(slot, Some(m.fused));
                    count += 1;
                    proof {
                        ms = ms.push(p);
                        assert forall|i: int| 0 <= i < n implies (#[trigger] claimed@[i] <==> claims(
                            ms,
                            i as usize,
                        )) by {
                            lemma_claims_push(before, p, i as usize);
                        }
                        assert forall|i: int| 0 <= i < n implies match #[trigger] replaced@[i] {
                            Some(x) => exists|j: int|
                                0 <= j < ms.len() && last_of((#[trigger] ms[j]).members) == i
                                    && is_fused(x, ms[j]),
                            None => !ends_at(ms, i),
                        } by {
                            if i == slot {
                                assert(ms[before.len() as int] == p);
                            } else {
                                assert(replaced@[i] == slots[i]);
                                match slots[i] {
                                    Some(x) => {
                                        let j = choose|j: int|
                                            0 <= j < before.len() && last_of(
                                                (#[trigger] before[j]).members,
                                            ) == i && is_fused(x, before[j]);
                                        assert(ms[j] == before[j]);
                                    },
                                    None => {
                                        assert(!ends_at(before, i));
                                        if ends_at(ms, i) {
                                            let j = choose|j: int|
                                                0 <= j < ms.len() && last_of(
                                                    (#[trigger] ms[j]).members,
                                                ) == i;
                                            if j < before.len() {
                                                assert(ms[j] == before[j]);
                                            }
                                        }
                                    },
                                }
                            }
                        }
                    }
                }
            },
            None => {},
        }
        root += 1;
    }
    let mut dropped: Vec<bool> = Vec::new();
    let mut i: usize = 0;
    while i < n
        invariant
            i <= n,
            claimed@.len() == n,
            replaced@.len() == n,
            forall|i: int| 0 <= i < n ==> (#[trigger] claimed@[i] <==> claims(ms, i as usize)),
            replaced_by(ms, replaced@),
            dropped@.len() == i,
            forall|k: int| 0 <= k < i ==> #[trigger] dropped@[k] == dropped_by(ms, n as nat)[k],
        decreases n - i,
    {
        let d = claimed[i] && replaced[i].is_none();
        proof {
            match replaced@[i as int] {
                Some(x) => {
                    let j = choose|j: int|
                        0 <= j < ms.len() && last_of((#[trigger] ms[j]).members) == i && is_fused(
                            x,
                            ms[j],
                        );
                    assert(ends_at(ms, i as int));
                },
                None => {},
            }
        }
        dropped.push(d);
        i += 1;
    }
    assert(dropped@ =~= dropped_by(ms, n as nat));
    let mut nodes: Vec<NodeIr> = Vec::new();
    core::mem::swap(&mut nodes, &mut ir.nodes);
    proof {
        let slots = replaced@;
        assert(replaced_by(patterns(g, n as int), slots));
    }
    ir.nodes = rebuild(nodes, &dropped, replaced);
    count
}

proof fn lemma_index_push(s: Seq<usize>, a: usize, x: usize)
    ensures
        s.push(a).contains(x) == (s.contains(x) || x == a),
{
    if s.contains(x) {
        let i = s.index_of(x);
        assert(s.push(a)[i] == x);
    }
    if x == a {
        assert(s.push(a)[s.len() as int] == x);
    }
    if s.push(a).contains(x) && x != a {
        let i = s.push(a).index_of(x);
        assert(s[i] == x);
    }
}

proof fn lemma_claims_push(ms: Seq<LayerNorm>, m: LayerNorm, i: usize)
    ensures
        claims(ms.push(m), i) == (claims(ms, i) || m.members.contains(i)),
{
    let all = ms.push(m);
    if claims(ms, i) {
        let j = choose|j: int| 0 <= j < ms.len() && (#[trigger] ms[j]).members.contains(i);
        assert(all[j] == ms[j]);
    }
    if m.members.contains(i) {
        assert(all[ms.len() as int] == m);
    }
    if claims(all, i) && !m.members.contains(i) {
        let j = choose|j: int| 0 <= j < all.len() && (#[trigger] all[j]).members.contains(i);
        assert(all[j] == ms[j]);
    }
}

// --- laws -------------------------------------------------------------------------------

/// Whether nobody but the nodes in `members` sees the value `name`.
pub open spec fn stays_within(ir: GraphIr, members: Seq<usize>, name: Seq<char>) -> bool {
    !escapes(ir, name) && forall|i: int|
        0 <= i < consumers_of(ir, name).len() ==> members.contains(
            #[trigger] consumers_of(ir, name)[i],
        )
}

proof fn lemma_sole_within(ir: GraphIr, members: Seq<usize>, name: Seq<char>, k: int)
    requires
        0 <= k < members.len(),
        sole_consumer(ir, name) == Some(members[k]),
    ensures
        stays_within(ir, members, name),
{
    assert(members.contains(members[k]));
}

/// No value of a pattern but its result is seen outside it: the graph does not give it to its
/// caller, no subgraph reads it, and all nodes that have it as an input belong to the pattern.
pub proof fn law_pattern_closed(ir: GraphIr, root: int, i: int)
    requires
        0 <= root < ir.nodes@.len(),
        pattern_at(ir, root) is Some,
        ir.nodes@.len() <= usize::MAX,
        0 <= i < pattern_at(ir, root)->0.members.len() - 1,
    ensures
        stays_within(
            ir,
            pattern_at(ir, root)->0.members,
            ir.nodes@[pattern_at(ir, root)->0.members[i] as int].output_name(0),
        ),
{
    let m = pattern_at(ir, root)->0;
    let s = m.members;
    let h = head_of(ir, root)->0;
    let q = root_of(ir, h.pow as int)->0;
    let div = quotient_of(ir, h.sub as int, q.sqrt as int)->0;
    let sc = scaling_of(ir, div as int)->0;
    assert(s[1] == h.sub && s[2] == h.pow && s[3] == q.var && s[4] == q.eps && s[5] == q.sqrt
        && s[6] == div && s[7] == sc.0);
    if i == 0 {
        lemma_sole_within(ir, s, ir.nodes@[root].output_name(0), 1);
    } else if i == 1 {
        let dev = ir.nodes@[h.sub as int].output_name(0);
        let r = consumers_of(ir, dev);
        lemma_readers(ir.nodes@, dev, ir.nodes@.len() as int);
        assert(r.contains(div));
        let d = r.index_of(div);
        assert(ir.nodes@[div as int].op@ == "Div"@);
        assert(ir.nodes@[h.pow as int].op@ == "Pow"@);
        lemma_names_differ();
        assert(h.pow != div);
        assert(s.contains(s[2]) && s.contains(s[6]));
        assert forall|k: int| 0 <= k < r.len() implies s.contains(#[trigger] r[k]) by {
            if r[k] != h.pow {
                assert(k == d);
            }
        }
    } else if i == 2 {
        lemma_sole_within(ir, s, ir.nodes@[h.pow as int].output_name(0), 3);
    } else if i == 3 {
        lemma_sole_within(ir, s, ir.nodes@[q.var as int].output_name(0), 4);
    } else if i == 4 {
        lemma_sole_within(ir, s, ir.nodes@[q.eps as int].output_name(0), 5);
    } else if i == 5 {
        lemma_sole_within(ir, s, ir.nodes@[q.sqrt as int].output_name(0), 6);
    } else if i == 6 {
        lemma_sole_within(ir, s, ir.nodes@[div as int].output_name(0), 7);
    } else {
        let b = bias_of(ir, sc.0 as int, sc.1)->0;
        assert(s[8] == b.0);
        lemma_sole_within(ir, s, ir.nodes@[sc.0 as int].output_name(0), 8);
    }
}

proof fn lemma_names_differ()
    ensures
        "Div"@ != "Pow"@,
{
    reveal_strlit("Div");
    reveal_strlit("Pow");
    assert("Div"@[0] != "Pow"@[0]);
}

} // verus!
