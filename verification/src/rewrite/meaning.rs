//! Rewrites keep the values of a graph.
//!
//! What operators compute is left open: a [`Meaning`] says what a constant tensor stands for and
//! what each node gives on its inputs, in values of any kind. Names are given values so that
//! every constant and every node agrees with the meaning; after a rewrite the same values still
//! agree with all that is there.

use crate::executor::{staged, Stages, Switches};
use crate::graph::{constant_def, tensor_under, GraphIr, NodeIr, TensorView};
use crate::host_ops::{floats_of, FLOAT};
use crate::rewrite::fold::{
    constants_folded, evaluated, fold_at, folded_nodes, folded_values, values_of,
};
use crate::rewrite::layernorm::{
    bias_of, claims, dropped_by, ends_at, head_of, is_free, is_fused, last_of, layernorm_fused,
    pattern_at, patterns, quotient_of, replaced_by, root_of, scaling_of, LayerNorm,
};
use crate::rewrite::order::{lemma_patterns_from, lemma_rebuilt_from};
use crate::rewrite::supply::patterns_have_one_output;
use crate::rewrite::prune::{initializers_pruned, needed, nodes_pruned, prune_rounds};
use crate::rewrite::{const_of, rebuilt, scalar_f32_of};
use crate::text::texts;
use vstd::prelude::*;

verus! {

/// What constants and nodes mean, in values of the type `V`.
#[verifier::reject_recursive_types(V)]
pub struct Meaning<V> {
    /// What a constant tensor stands for.
    pub tensor: spec_fn(TensorView) -> V,
    /// What a node gives as its outputs on these inputs.
    pub run: spec_fn(NodeIr, Seq<V>) -> Seq<V>,
}

/// The values that a node reads.
pub open spec fn read_values<V>(node: NodeIr, val: spec_fn(Seq<char>) -> V) -> Seq<V> {
    Seq::new(node.inputs@.len(), |j: int| val(node.inputs@[j]@))
}

/// Whether a node gives to its named outputs what it means.
pub open spec fn node_agrees<V>(m: Meaning<V>, node: NodeIr, val: spec_fn(Seq<char>) -> V) -> bool {
    forall|o: int|
        0 <= o < node.outputs@.len() && (#[trigger] node.outputs@[o])@.len() > 0 ==> val(
            node.outputs@[o]@,
        ) == (m.run)(node, read_values(node, val))[o]
}

/// Whether the values agree with every constant and every node of a graph.
pub open spec fn agrees<V>(m: Meaning<V>, ir: GraphIr, val: spec_fn(Seq<char>) -> V) -> bool {
    &&& forall|name: Seq<char>| #[trigger]
        ir.initializers.has(name) ==> val(name) == (m.tensor)(ir.initializers.at(name)@)
    &&& forall|i: int| 0 <= i < ir.nodes@.len() ==> node_agrees(m, #[trigger] ir.nodes@[i], val)
}

/// Whether `Constant` nodes give their tensor.
pub open spec fn constants_mean<V>(m: Meaning<V>) -> bool {
    forall|node: NodeIr, ins: Seq<V>| #[trigger]
        (m.run)(node, ins).len() >= 0 && constant_def(node) is Some ==> (m.run)(node, ins)[0]
            == (m.tensor)(constant_def(node)->Some_0.1)
}

/// Whether a value that is computed at load time is what the node gives.
pub open spec fn folds_mean<V>(m: Meaning<V>) -> bool {
    forall|node: NodeIr, ts: Seq<TensorView>| #[trigger]
        evaluated(node, ts) is Some ==> (m.run)(node, ts.map_values(m.tensor))[0] == (m.tensor)(
            evaluated(node, ts)->Some_0,
        )
}

// --- constants --------------------------------------------------------------------------

proof fn lemma_constant_agrees<V>(
    m: Meaning<V>,
    ir: GraphIr,
    val: spec_fn(Seq<char>) -> V,
    name: Seq<char>,
)
    requires
        agrees(m, ir, val),
        constants_mean(m),
        const_of(ir, name) is Some,
        name.len() > 0 || ir.initializers.has(name),
    ensures
        val(name) == (m.tensor)(const_of(ir, name)->Some_0),
{
    if !ir.initializers.has(name) {
        crate::rewrite::fold_laws::law_constants_are_given(ir, name);
        let i = choose|i: int|
            0 <= i < ir.nodes@.len() && (#[trigger] ir.nodes@[i]).op@ == "Constant"@
                && ir.nodes@[i].domain@.len() == 0 && ir.nodes@[i].outputs@.len() > 0
                && ir.nodes@[i].outputs@[0]@ == name && ir.nodes@[i].attrs.has("value"@)
                && ir.nodes@[i].attrs.at("value"@) is Tensor && const_of(ir, name) == Some(
                (ir.nodes@[i].attrs.at("value"@)->Tensor_0)@,
            );
        let node = ir.nodes@[i];
        assert(node_agrees(m, node, val));
        assert(node.outputs@[0]@.len() > 0);
        assert(constant_def(node) is Some);
        assert((m.run)(node, read_values(node, val)).len() >= 0);
    }
}

proof fn lemma_folded_agree<V>(m: Meaning<V>, ir: GraphIr, val: spec_fn(Seq<char>) -> V, k: int, name: Seq<
    char,
>)
    requires
        agrees(m, ir, val),
        constants_mean(m),
        folds_mean(m),
        all_named(ir),
        0 <= k <= ir.nodes@.len(),
        folded_values(ir, k).contains_key(name),
    ensures
        val(name) == (m.tensor)(folded_values(ir, k)[name]),
    decreases k, 0nat,
{
    let rest = folded_values(ir, k - 1);
    let node = ir.nodes@[k - 1];
    if fold_at(ir, rest, k - 1) is Some && node.output_name(0) == name {
        let names = texts(node.inputs@);
        let ts = values_of(ir, rest, names)->Some_0;
        lemma_values_agree(m, ir, val, k - 1, names);
        assert forall|j: int| 0 <= j < names.len() implies ts.map_values(m.tensor)[j] == read_values(
            node,
            val,
        )[j] by {
            assert(names[j] == node.inputs@[j]@);
        }
        assert(ts.map_values(m.tensor) =~= read_values(node, val));
        assert(evaluated(node, ts) is Some);
        assert(node_agrees(m, node, val));
        assert(node.outputs@[0]@.len() > 0);
    } else {
        lemma_folded_agree(m, ir, val, k - 1, name);
    }
}

proof fn lemma_values_agree<V>(
    m: Meaning<V>,
    ir: GraphIr,
    val: spec_fn(Seq<char>) -> V,
    k: int,
    names: Seq<Seq<char>>,
)
    requires
        agrees(m, ir, val),
        constants_mean(m),
        folds_mean(m),
        all_named(ir),
        0 <= k < ir.nodes@.len(),
        values_of(ir, folded_values(ir, k), names) is Some,
    ensures
        values_of(ir, folded_values(ir, k), names)->Some_0.len() == names.len(),
        forall|j: int|
            0 <= j < names.len() ==> val(#[trigger] names[j]) == (m.tensor)(
                values_of(ir, folded_values(ir, k), names)->Some_0[j],
            ),
    decreases k, names.len(),
{
    if names.len() > 0 {
        let rest = names.drop_last();
        let f = folded_values(ir, k);
        lemma_values_agree(m, ir, val, k, rest);
        let name = names.last();
        if f.contains_key(name) {
            lemma_folded_agree(m, ir, val, k, name);
        } else {
            if name.len() == 0 {
                assert(name =~= Seq::empty());
                lemma_no_nameless(ir, name);
            }
            lemma_constant_agrees(m, ir, val, name);
        }
        assert forall|j: int| 0 <= j < names.len() implies val(#[trigger] names[j]) == (m.tensor)(
            values_of(ir, f, names)->Some_0[j],
        ) by {
            if j < rest.len() {
                assert(rest[j] == names[j]);
            }
        }
    }
}

/// Whether the empty name is no constant: no initializer has it, every node that makes one value
/// gives it a name, and so does every `Constant`.
pub open spec fn all_named(ir: GraphIr) -> bool {
    &&& !ir.initializers.has(Seq::empty())
    &&& forall|i: int|
        0 <= i < ir.nodes@.len() && ((#[trigger] ir.nodes@[i]).outputs@.len() == 1 || constant_def(
            ir.nodes@[i],
        ) is Some) ==> ir.nodes@[i].output_name(0).len() > 0
}

proof fn lemma_folded_named(ir: GraphIr, k: int)
    requires
        all_named(ir),
        0 <= k <= ir.nodes@.len(),
    ensures
        !folded_values(ir, k).contains_key(Seq::empty()),
    decreases k,
{
    if k > 0 {
        lemma_folded_named(ir, k - 1);
        assert(ir.nodes@[k - 1].outputs@.len() == 1 ==> ir.nodes@[k - 1].output_name(0).len() > 0);
    }
}

proof fn lemma_no_nameless(ir: GraphIr, name: Seq<char>)
    requires
        all_named(ir),
        name.len() == 0,
        !ir.initializers.has(name),
    ensures
        const_of(ir, name) is None,
{
    if const_of(ir, name) is Some {
        crate::rewrite::fold_laws::law_constants_are_given(ir, name);
        let i = choose|i: int|
            0 <= i < ir.nodes@.len() && (#[trigger] ir.nodes@[i]).op@ == "Constant"@
                && ir.nodes@[i].domain@.len() == 0 && ir.nodes@[i].outputs@.len() > 0
                && ir.nodes@[i].outputs@[0]@ == name && ir.nodes@[i].attrs.has("value"@)
                && ir.nodes@[i].attrs.at("value"@) is Tensor && const_of(ir, name) == Some(
                (ir.nodes@[i].attrs.at("value"@)->Tensor_0)@,
            );
        assert(constant_def(ir.nodes@[i]) is Some);
    }
}

/// **Folding constants keeps the values**: whatever the operators mean, as long as load time and
/// run time agree on it, values that agree with a graph agree with it after folding.
pub proof fn law_fold_keeps_values<V>(
    m: Meaning<V>,
    before: GraphIr,
    after: GraphIr,
    r: int,
    val: spec_fn(Seq<char>) -> V,
)
    requires
        constants_folded(before, after, r),
        agrees(m, before, val),
        constants_mean(m),
        folds_mean(m),
        all_named(before),
    ensures
        agrees(m, after, val),
        all_named(after),
{
    let n = before.nodes@.len() as int;
    assert forall|name: Seq<char>| #[trigger] after.initializers.has(name) implies val(name)
        == (m.tensor)(after.initializers.at(name)@) by {
        let f = folded_values(before, n);
        assert(tensor_under(after.initializers, name) == if f.contains_key(name) {
            Some(f[name])
        } else {
            tensor_under(before.initializers, name)
        });
        if f.contains_key(name) {
            lemma_folded_agree(m, before, val, n, name);
        } else {
            assert(before.initializers.has(name));
        }
    }
    lemma_folded_named(before, n);
    assert(tensor_under(after.initializers, Seq::empty()) is None);
    assert forall|a: int| 0 <= a < after.nodes@.len() implies node_agrees(
        m,
        #[trigger] after.nodes@[a],
        val,
    ) && ((after.nodes@[a].outputs@.len() == 1 || constant_def(after.nodes@[a]) is Some)
        ==> after.nodes@[a].output_name(0).len() > 0) by {
        lemma_rebuilt_from(before.nodes@, folded_nodes(before), n, a);
        let i = choose|i: int|
            0 <= i < n && !folded_nodes(before)[i] && #[trigger] before.nodes@[i]
                == after.nodes@[a];
        assert(node_agrees(m, before.nodes@[i], val));
    }
}

// --- what nothing needs -----------------------------------------------------------------

proof fn lemma_needed_from(nodes: Seq<NodeIr>, outputs: Seq<String>, k: int, a: int) -> (i: int)
    requires
        0 <= k <= nodes.len(),
        0 <= a < needed(nodes, outputs, k).len(),
    ensures
        0 <= i < k,
        nodes[i] == needed(nodes, outputs, k)[a],
    decreases k,
{
    if k > 0 && a < needed(nodes, outputs, k - 1).len() {
        lemma_needed_from(nodes, outputs, k - 1, a)
    } else {
        k - 1
    }
}

proof fn lemma_rounds_from(nodes: Seq<NodeIr>, outputs: Seq<String>, k: nat, a: int) -> (i: int)
    requires
        0 <= a < prune_rounds(nodes, outputs, k).len(),
    ensures
        0 <= i < nodes.len(),
        nodes[i] == prune_rounds(nodes, outputs, k)[a],
    decreases k,
{
    if k == 0 {
        a
    } else {
        let before = prune_rounds(nodes, outputs, (k - 1) as nat);
        let j = lemma_needed_from(before, outputs, before.len() as int, a);
        lemma_rounds_from(nodes, outputs, (k - 1) as nat, j)
    }
}

/// **Dropping what nothing needs keeps the values.**
pub proof fn law_prune_keeps_values<V>(
    m: Meaning<V>,
    before: GraphIr,
    mid: GraphIr,
    after: GraphIr,
    dropped: int,
    bytes: int,
    val: spec_fn(Seq<char>) -> V,
)
    requires
        nodes_pruned(before, mid, dropped),
        initializers_pruned(mid, after, bytes),
        agrees(m, before, val),
    ensures
        agrees(m, after, val),
{
    let k = choose|k: nat| mid.nodes@ == #[trigger] prune_rounds(before.nodes@, before.outputs@, k);
    assert forall|a: int| 0 <= a < after.nodes@.len() implies node_agrees(
        m,
        #[trigger] after.nodes@[a],
        val,
    ) by {
        let i = lemma_rounds_from(before.nodes@, before.outputs@, k, a);
        assert(node_agrees(m, before.nodes@[i], val));
    }
    assert forall|name: Seq<char>| #[trigger] after.initializers.has(name) implies val(name)
        == (m.tensor)(after.initializers.at(name)@) by {
        assert(mid.initializers.has(name));
        assert(before.initializers.has(name));
    }
}

// --- layer normalization ----------------------------------------------------------------

/// The arithmetic that a layer normalization is made of.
#[verifier::reject_recursive_types(V)]
pub struct Arithmetic<V> {
    /// The mean along the last axis, with the dimension kept.
    pub mean: spec_fn(V) -> V,
    pub sub: spec_fn(V, V) -> V,
    pub pow: spec_fn(V, V) -> V,
    pub plus: spec_fn(V, V) -> V,
    pub sqrt: spec_fn(V) -> V,
    pub div: spec_fn(V, V) -> V,
    pub times: spec_fn(V, V) -> V,
    /// The single-precision number with these bits.
    pub number: spec_fn(u32) -> V,
}

impl<V> Arithmetic<V> {
    /// `(x - mean) / sqrt(variance + epsilon)`, the variance being the mean of the squared
    /// deviations.
    pub open spec fn normalized(self, x: V, epsilon: u32) -> V {
        let dev = (self.sub)(x, (self.mean)(x));
        let variance = (self.mean)((self.pow)(dev, (self.number)(0x4000_0000)));
        (self.div)(dev, (self.sqrt)((self.plus)(variance, (self.number)(epsilon))))
    }
}

/// Whether the meaning of the operators is this arithmetic, in which sums and products do not
/// depend on the order of their operands, and a layer normalization along the last axis
/// normalizes, scales, and adds the bias where there is one.
pub open spec fn computes<V>(m: Meaning<V>, a: Arithmetic<V>) -> bool {
    &&& forall|x: V, y: V| #[trigger] (a.plus)(x, y) == (a.plus)(y, x)
    &&& forall|x: V, y: V| #[trigger] (a.times)(x, y) == (a.times)(y, x)
    &&& forall|t: TensorView|
        t.dtype == FLOAT && (#[trigger] floats_of(t)) is Ok && floats_of(t)->Ok_0.len() == 1 ==> (
        m.tensor)(t) == (a.number)(floats_of(t)->Ok_0[0])
    &&& forall|node: NodeIr, ins: Seq<V>| #[trigger]
        (m.run)(node, ins).len() >= 0 ==> runs_as(m, a, node, ins)
}

pub open spec fn runs_as<V>(m: Meaning<V>, a: Arithmetic<V>, node: NodeIr, ins: Seq<V>) -> bool {
    let out = (m.run)(node, ins)[0];
    &&& node.is_op("ReduceMean"@) && node.ints_attr("axes"@) == Some(seq![(-1) as i64])
        && node.int_attr("keepdims"@, 1) != 0 ==> out == (a.mean)(ins[0])
    &&& node.is_op("Sub"@) && ins.len() == 2 ==> out == (a.sub)(ins[0], ins[1])
    &&& node.is_op("Pow"@) && ins.len() >= 2 ==> out == (a.pow)(ins[0], ins[1])
    &&& node.is_op("Add"@) && ins.len() == 2 ==> out == (a.plus)(ins[0], ins[1])
    &&& node.is_op("Mul"@) && ins.len() == 2 ==> out == (a.times)(ins[0], ins[1])
    &&& node.is_op("Sqrt"@) ==> out == (a.sqrt)(ins[0])
    &&& node.is_op("Div"@) && ins.len() == 2 ==> out == (a.div)(ins[0], ins[1])
    &&& node.is_op("LayerNormalization"@) && node.int_attr("axis"@, (-1) as i64) == -1 ==> {
        let y = a.normalized(ins[0], node.float_attr("epsilon"@, 0x3727_c5ac));
        &&& ins.len() == 2 ==> out == (a.times)(y, ins[1])
        &&& ins.len() == 3 ==> out == (a.plus)((a.times)(y, ins[1]), ins[2])
    }
}

proof fn lemma_first_output<V>(
    m: Meaning<V>,
    a: Arithmetic<V>,
    ir: GraphIr,
    val: spec_fn(Seq<char>) -> V,
    i: int,
)
    requires
        agrees(m, ir, val),
        computes(m, a),
        0 <= i < ir.nodes@.len(),
        ir.nodes@[i].output_name(0).len() > 0,
    ensures
        val(ir.nodes@[i].output_name(0)) == (m.run)(ir.nodes@[i], read_values(ir.nodes@[i], val))[0],
        runs_as(m, a, ir.nodes@[i], read_values(ir.nodes@[i], val)),
{
    let node = ir.nodes@[i];
    assert(node_agrees(m, node, val));
    assert(node.outputs@[0]@.len() > 0);
    assert((m.run)(node, read_values(node, val)).len() >= 0);
}

proof fn lemma_scalar<V>(
    m: Meaning<V>,
    a: Arithmetic<V>,
    ir: GraphIr,
    val: spec_fn(Seq<char>) -> V,
    name: Seq<char>,
)
    requires
        agrees(m, ir, val),
        computes(m, a),
        constants_mean(m),
        all_named(ir),
        scalar_f32_of(ir, name) is Some,
    ensures
        val(name) == (a.number)(scalar_f32_of(ir, name)->Some_0),
{
    if name.len() == 0 {
        assert(name =~= Seq::empty());
        lemma_no_nameless(ir, name);
    }
    lemma_constant_agrees(m, ir, val, name);
    let t = const_of(ir, name)->Some_0;
    assert(floats_of(t) is Ok);
}

/// A sole reader is a node, and what it reads has a name.
proof fn lemma_sole(ir: GraphIr, name: Seq<char>)
    requires
        ir.nodes@.len() <= usize::MAX,
        crate::rewrite::sole_consumer(ir, name) is Some,
    ensures
        name.len() > 0,
        crate::rewrite::sole_consumer(ir, name)->Some_0 < ir.nodes@.len(),
{
    crate::rewrite::lemma_readers(ir.nodes@, name, ir.nodes@.len() as int);
}

/// **A pattern computes a layer normalization**: where the nodes mean what they say, the result of
/// the pattern is its first input, normalized along the last axis with the epsilon of the
/// pattern, times the second input, plus the third where there is one.
pub proof fn law_pattern_computes<V>(
    m: Meaning<V>,
    a: Arithmetic<V>,
    ir: GraphIr,
    val: spec_fn(Seq<char>) -> V,
    root: int,
    p: LayerNorm,
)
    requires
        agrees(m, ir, val),
        computes(m, a),
        constants_mean(m),
        all_named(ir),
        ir.nodes@.len() <= usize::MAX,
        0 <= root < ir.nodes@.len(),
        pattern_at(ir, root) == Some(p),
        p.output.len() > 0,
    ensures
        p.inputs.len() == 2 || p.inputs.len() == 3,
        ({
            let y = (a.times)(a.normalized(val(p.inputs[0]), p.epsilon), val(p.inputs[1]));
            val(p.output) == if p.inputs.len() == 2 {
                y
            } else {
                (a.plus)(y, val(p.inputs[2]))
            }
        }),
{
    let nodes = ir.nodes@;
    let h = head_of(ir, root)->0;
    let q = root_of(ir, h.pow as int)->0;
    let div = quotient_of(ir, h.sub as int, q.sqrt as int)->0;
    let (mul, scale) = scaling_of(ir, div as int)->0;
    let mean_name = nodes[root].output_name(0);
    let dev_name = nodes[h.sub as int].output_name(0);
    let pow_name = nodes[h.pow as int].output_name(0);
    let var_name = nodes[q.var as int].output_name(0);
    let eps_name = nodes[q.eps as int].output_name(0);
    let sqrt_name = nodes[q.sqrt as int].output_name(0);
    let div_name = nodes[div as int].output_name(0);
    let mul_name = nodes[mul as int].output_name(0);
    lemma_sole(ir, mean_name);
    crate::rewrite::lemma_readers(nodes, dev_name, nodes.len() as int);
    assert(dev_name.len() > 0);
    lemma_sole(ir, pow_name);
    lemma_sole(ir, var_name);
    lemma_sole(ir, eps_name);
    lemma_sole(ir, sqrt_name);
    lemma_sole(ir, div_name);
    lemma_first_output(m, a, ir, val, root);
    lemma_first_output(m, a, ir, val, h.sub as int);
    lemma_first_output(m, a, ir, val, h.pow as int);
    lemma_first_output(m, a, ir, val, q.var as int);
    lemma_first_output(m, a, ir, val, q.eps as int);
    lemma_first_output(m, a, ir, val, q.sqrt as int);
    lemma_first_output(m, a, ir, val, div as int);
    let x = val(p.inputs[0]);
    let dev = (a.sub)(x, (a.mean)(x));
    assert(val(mean_name) == (a.mean)(x));
    assert(val(dev_name) == dev);
    let two = nodes[h.pow as int].input_name(1);
    lemma_scalar(m, a, ir, val, two);
    assert(nodes[h.pow as int].inputs@.len() >= 2) by {
        if nodes[h.pow as int].inputs@.len() < 2 {
            assert(two =~= Seq::empty());
            lemma_no_nameless(ir, two);
        }
    }
    assert(val(pow_name) == (a.pow)(dev, (a.number)(0x4000_0000)));
    assert(val(var_name) == (a.mean)(val(pow_name)));
    let o = crate::rewrite::layernorm::other_operand(nodes[q.eps as int], var_name)->0;
    lemma_scalar(m, a, ir, val, o);
    assert(val(eps_name) == (a.plus)(val(var_name), (a.number)(q.epsilon)));
    assert(val(sqrt_name) == (a.sqrt)(val(eps_name)));
    assert(val(div_name) == a.normalized(x, q.epsilon));
    if bias_of(ir, mul as int, scale) is Some {
        let (add, bias) = bias_of(ir, mul as int, scale)->0;
        lemma_sole(ir, mul_name);
        lemma_first_output(m, a, ir, val, mul as int);
        lemma_first_output(m, a, ir, val, add as int);
        assert(val(mul_name) == (a.times)(val(div_name), val(scale)));
    } else {
        lemma_first_output(m, a, ir, val, mul as int);
        assert(val(mul_name) == (a.times)(val(div_name), val(scale)));
    }
}

/// Where each node of a rebuilt list comes from.
proof fn lemma_rebuilt_origin(
    nodes: Seq<NodeIr>,
    dropped: Seq<bool>,
    replaced: Seq<Option<NodeIr>>,
    k: int,
    a: int,
) -> (i: int)
    requires
        0 <= k <= nodes.len(),
        0 <= a < rebuilt(nodes, dropped, replaced, k).len(),
    ensures
        0 <= i < k,
        !dropped[i],
        rebuilt(nodes, dropped, replaced, k)[a] == match replaced[i] {
            Some(n) => n,
            None => nodes[i],
        },
    decreases k,
{
    let rest = rebuilt(nodes, dropped, replaced, k - 1);
    if k > 0 && a < rest.len() {
        lemma_rebuilt_origin(nodes, dropped, replaced, k - 1, a)
    } else {
        k - 1
    }
}

/// Where a node of a list that is rebuilt goes.
proof fn lemma_rebuilt_goal(
    nodes: Seq<NodeIr>,
    dropped: Seq<bool>,
    replaced: Seq<Option<NodeIr>>,
    k: int,
    i: int,
)
    requires
        0 <= i < k <= nodes.len(),
        !dropped[i],
    ensures
        rebuilt(nodes, dropped, replaced, k).contains(
            match replaced[i] {
                Some(n) => n,
                None => nodes[i],
            },
        ),
    decreases k,
{
    let rest = rebuilt(nodes, dropped, replaced, k - 1);
    let all = rebuilt(nodes, dropped, replaced, k);
    let x = match replaced[i] {
        Some(n) => n,
        None => nodes[i],
    };
    if i < k - 1 {
        lemma_rebuilt_goal(nodes, dropped, replaced, k - 1, i);
        let j = rest.index_of(x);
        assert(all[j] == x);
    } else {
        assert(all[rest.len() as int] == x);
    }
}

proof fn lemma_fused_agrees<V>(
    m: Meaning<V>,
    a: Arithmetic<V>,
    ir: GraphIr,
    val: spec_fn(Seq<char>) -> V,
    root: int,
    p: LayerNorm,
    node: NodeIr,
)
    requires
        agrees(m, ir, val),
        computes(m, a),
        constants_mean(m),
        all_named(ir),
        ir.nodes@.len() <= usize::MAX,
        0 <= root < ir.nodes@.len(),
        pattern_at(ir, root) == Some(p),
        is_fused(node, p),
    ensures
        node_agrees(m, node, val),
{
    let outs = texts(node.outputs@);
    assert(outs.len() == 1 && outs[0] == p.output);
    assert(node.outputs@[0]@ == p.output);
    if p.output.len() > 0 {
        law_pattern_computes(m, a, ir, val, root, p);
        law_fused_node(node, p);
        let ins = read_values(node, val);
        assert((m.run)(node, ins).len() >= 0);
        let names = texts(node.inputs@);
        assert(names == p.inputs);
        assert forall|j: int| 0 <= j < ins.len() implies ins[j] == val(#[trigger] p.inputs[j]) by {
            assert(names[j] == node.inputs@[j]@);
        }
        assert(ins[0] == val(p.inputs[0]) && ins[1] == val(p.inputs[1]));
    }
}

/// **The fused node says what the pattern said**: a layer normalization along the last axis, with
/// the inputs, the output and the epsilon of the pattern.
pub proof fn law_fused_node(node: NodeIr, p: LayerNorm)
    requires
        is_fused(node, p),
    ensures
        node.op@ == "LayerNormalization"@,
        node.domain@.len() == 0,
        node.inputs@.len() == p.inputs.len(),
        forall|j: int| 0 <= j < p.inputs.len() ==> (#[trigger] node.inputs@[j])@ == p.inputs[j],
        node.outputs@.len() == 1,
        node.outputs@[0]@ == p.output,
        node.int_attr("axis"@, 0) == -1,
        node.int_attr("axis"@, (-1) as i64) == -1,
        forall|d: u32| #[trigger] node.float_attr("epsilon"@, d) == p.epsilon,
{
    reveal_strlit("axis");
    reveal_strlit("epsilon");
    assert("axis"@.len() == 4 && "epsilon"@.len() == 7);
    let ins = texts(node.inputs@);
    let outs = texts(node.outputs@);
    assert(outs.len() == 1 && outs[0] == node.outputs@[0]@);
    assert forall|j: int| 0 <= j < p.inputs.len() implies (#[trigger] node.inputs@[j])@
        == p.inputs[j] by {
        assert(ins[j] == node.inputs@[j]@);
    }
    assert(node.attrs.map().contains_key("axis"@));
    assert(node.attrs.map().contains_key("epsilon"@));
}

/// **Fusing layer normalizations keeps the values**: where the operators mean what they say,
/// values that agree with a graph agree with it afterwards.
pub proof fn law_layernorm_keeps_values<V>(
    m: Meaning<V>,
    a: Arithmetic<V>,
    before: GraphIr,
    after: GraphIr,
    r: int,
    val: spec_fn(Seq<char>) -> V,
)
    requires
        layernorm_fused(before, after, r),
        agrees(m, before, val),
        computes(m, a),
        constants_mean(m),
        all_named(before),
        patterns_have_one_output(before),
        before.nodes@.len() <= usize::MAX,
    ensures
        agrees(m, after, val),
        all_named(after),
{
    let nodes = before.nodes@;
    let n = nodes.len() as int;
    let ms = patterns(before, n);
    let replaced = choose|replaced: Seq<Option<NodeIr>>|
        #![trigger replaced_by(ms, replaced)]
        replaced.len() == n && replaced_by(ms, replaced) && after.nodes@ == rebuilt(
            nodes,
            dropped_by(ms, n as nat),
            replaced,
            n,
        );
    assert forall|k: int| 0 <= k < after.nodes@.len() implies node_agrees(
        m,
        #[trigger] after.nodes@[k],
        val,
    ) && ((after.nodes@[k].outputs@.len() == 1 || constant_def(after.nodes@[k]) is Some)
        ==> after.nodes@[k].output_name(0).len() > 0) by {
        let i = lemma_rebuilt_origin(nodes, dropped_by(ms, n as nat), replaced, n, k);
        match replaced[i] {
            None => {
                assert(node_agrees(m, nodes[i], val));
            },
            Some(x) => {
                let j = choose|j: int|
                    0 <= j < ms.len() && last_of((#[trigger] ms[j]).members) == i && is_fused(
                        x,
                        ms[j],
                    );
                lemma_patterns_from(before, n, j);
                let root = choose|root: int|
                    0 <= root < n && (#[trigger] pattern_at(before, root)) == Some(ms[j]);
                lemma_fused_agrees(m, a, before, val, root, ms[j], x);
                law_fused_node(x, ms[j]);
                lemma_result_named(before, root, j);
            },
        }
    }
}

/// The result of a pattern has a name.
proof fn lemma_result_named(ir: GraphIr, root: int, j: int)
    requires
        0 <= j < patterns(ir, ir.nodes@.len() as int).len(),
        pattern_at(ir, root) == Some(patterns(ir, ir.nodes@.len() as int)[j]),
        all_named(ir),
        patterns_have_one_output(ir),
        ir.nodes@.len() <= usize::MAX,
        0 <= root < ir.nodes@.len(),
        pattern_at(ir, root) is Some,
    ensures
        pattern_at(ir, root)->0.output.len() > 0,
{
    let p = pattern_at(ir, root)->0;
    let ms = patterns(ir, ir.nodes@.len() as int);
    assert forall|k: int| 0 <= k < p.members.len() implies claims(ms, #[trigger] p.members[k]) by {
        assert(ms[j].members.contains(p.members[k]));
    }
    let h = head_of(ir, root)->0;
    let q = root_of(ir, h.pow as int)->0;
    let div = quotient_of(ir, h.sub as int, q.sqrt as int)->0;
    let (mul, scale) = scaling_of(ir, div as int)->0;
    lemma_sole(ir, ir.nodes@[div as int].output_name(0));
    assert(p.members[7] == mul);
    if bias_of(ir, mul as int, scale) is Some {
        let (add, bias) = bias_of(ir, mul as int, scale)->0;
        lemma_sole(ir, ir.nodes@[mul as int].output_name(0));
        assert(p.members[8] == add);
        assert(ir.nodes@[p.members[8] as int].outputs@.len() == 1);
    } else {
        assert(ir.nodes@[p.members[7] as int].outputs@.len() == 1);
    }
}

/// **Nothing but patterns is touched**: every node afterwards was there before, outside all
/// patterns, or is the layer normalization of a pattern; every node outside the patterns is still
/// there, and for every pattern there is its layer normalization.
pub proof fn law_fused_nodes(before: GraphIr, after: GraphIr, r: int, i: int)
    requires
        layernorm_fused(before, after, r),
        before.nodes@.len() <= usize::MAX,
    ensures
        r == patterns(before, before.nodes@.len() as int).len(),
        0 <= i < after.nodes@.len() ==> {
            ||| exists|k: int|
                0 <= k < before.nodes@.len() && #[trigger] before.nodes@[k] == after.nodes@[i]
                    && !claims(patterns(before, before.nodes@.len() as int), k as usize)
            ||| exists|root: int|
                0 <= root < before.nodes@.len() && (#[trigger] pattern_at(before, root)) is Some
                    && is_fused(after.nodes@[i], pattern_at(before, root)->Some_0)
        },
        0 <= i < before.nodes@.len() && !claims(
            patterns(before, before.nodes@.len() as int),
            i as usize,
        ) ==> after.nodes@.contains(before.nodes@[i]),
{
    let nodes = before.nodes@;
    let n = nodes.len() as int;
    let ms = patterns(before, n);
    let replaced = choose|replaced: Seq<Option<NodeIr>>|
        #![trigger replaced_by(ms, replaced)]
        replaced.len() == n && replaced_by(ms, replaced) && after.nodes@ == rebuilt(
            nodes,
            dropped_by(ms, n as nat),
            replaced,
            n,
        );
    if 0 <= i < after.nodes@.len() {
        let k = lemma_rebuilt_origin(nodes, dropped_by(ms, n as nat), replaced, n, i);
        match replaced[k] {
            None => {
                assert(!dropped_by(ms, n as nat)[k]);
                assert(!ends_at(ms, k));
                assert(nodes[k] == after.nodes@[i] && !claims(ms, k as usize));
            },
            Some(x) => {
                let j = choose|j: int|
                    0 <= j < ms.len() && last_of((#[trigger] ms[j]).members) == k && is_fused(
                        x,
                        ms[j],
                    );
                lemma_patterns_from(before, n, j);
                let root = choose|root: int|
                    0 <= root < n && (#[trigger] pattern_at(before, root)) == Some(ms[j]);
                assert(is_fused(after.nodes@[i], pattern_at(before, root)->Some_0));
            },
        }
    }
    if 0 <= i < n && !claims(ms, i as usize) {
        assert(replaced[i] is None) by {
            if let Some(x) = replaced[i] {
                let j = choose|j: int|
                    0 <= j < ms.len() && last_of((#[trigger] ms[j]).members) == i && is_fused(
                        x,
                        ms[j],
                    );
                lemma_patterns_from(before, n, j);
                crate::rewrite::layernorm::lemma_last_of(ms[j].members);
                assert(ms[j].members.contains(i as usize));
            }
        }
        assert(!dropped_by(ms, n as nat)[i]);
        lemma_rebuilt_goal(nodes, dropped_by(ms, n as nat), replaced, n, i);
    }
}

/// **Every pattern is found**: one that is not taken up shares a node with one that is.
pub proof fn law_every_pattern_is_found(ir: GraphIr, root: int, k: int)
    requires
        0 <= root < k <= ir.nodes@.len(),
        pattern_at(ir, root) is Some,
    ensures
        ({
            let p = pattern_at(ir, root)->Some_0;
            patterns(ir, k).contains(p) || exists|j: int|
                0 <= j < p.members.len() && claims(patterns(ir, k), #[trigger] p.members[j])
        }),
    decreases k,
{
    let p = pattern_at(ir, root)->Some_0;
    let rest = patterns(ir, k - 1);
    let all = patterns(ir, k);
    if root < k - 1 {
        law_every_pattern_is_found(ir, root, k - 1);
        if rest.contains(p) {
            let i = rest.index_of(p);
            assert(all[i] == p);
        } else {
            let j = choose|j: int| 0 <= j < p.members.len() && claims(rest, #[trigger] p.members[j]);
            let i = choose|i: int|
                0 <= i < rest.len() && (#[trigger] rest[i]).members.contains(p.members[j]);
            assert(all[i] == rest[i]);
            assert(claims(all, p.members[j]));
        }
    } else if is_free(rest, p) {
        assert(all[rest.len() as int] == p);
    } else {
        let j = choose|j: int| 0 <= j < p.members.len() && claims(rest, #[trigger] p.members[j]);
        assert(claims(all, p.members[j]));
    }
}

/// Whether `i` is the only reader of the first output of node `from`, which is given to nobody else.
pub open spec fn leads_to(ir: GraphIr, from: int, i: int) -> bool {
    crate::rewrite::sole_consumer(ir, ir.nodes@[from].output_name(0)) == Some(i as usize)
}

/// **A written-out layer normalization is recognized**: mean, deviation, square, mean, epsilon,
/// root, quotient, scale and bias, each read by the next alone but for the deviation, which is
/// squared and divided. The scale and the epsilon may stand on either side.
pub proof fn law_pattern_is_recognized(
    ir: GraphIr,
    mean: int,
    sub: int,
    pow: int,
    var: int,
    eps: int,
    sqrt: int,
    div: int,
    mul: int,
    add: int,
    epsilon: u32,
    scale: Seq<char>,
    bias: Seq<char>,
)
    requires
        ({
            let n = ir.nodes@;
            let dev = n[sub].output_name(0);
            let c = crate::rewrite::consumers_of(ir, dev);
            &&& ir.nodes@.len() <= usize::MAX
            &&& 0 <= mean < n.len() && 0 <= sub < n.len() && 0 <= pow < n.len() && 0 <= var < n.len()
                && 0 <= eps < n.len() && 0 <= sqrt < n.len() && 0 <= div < n.len() && 0 <= mul
                < n.len() && 0 <= add < n.len()
            &&& crate::rewrite::layernorm::last_axis_mean(n[mean]) && n[mean].inputs@.len() > 0
            &&& leads_to(ir, mean, sub)
            &&& n[sub].is_op("Sub"@) && n[sub].inputs@.len() == 2 && n[sub].inputs@[0]@
                == n[mean].input_name(0) && n[sub].inputs@[1]@ == n[mean].output_name(0)
            &&& !crate::rewrite::escapes(ir, dev)
            &&& c == seq![pow as usize, div as usize] || c == seq![div as usize, pow as usize]
            &&& n[pow].is_op("Pow"@) && n[pow].inputs@.len() > 0 && n[pow].inputs@[0]@ == dev
            &&& scalar_f32_of(ir, n[pow].input_name(1)) == Some(0x4000_0000u32)
            &&& leads_to(ir, pow, var)
            &&& crate::rewrite::layernorm::last_axis_mean(n[var]) && n[var].inputs@.len() > 0
                && n[var].inputs@[0]@ == n[pow].output_name(0)
            &&& leads_to(ir, var, eps)
            &&& n[eps].is_op("Add"@) && n[eps].inputs@.len() == 2
            &&& (n[eps].inputs@[0]@ == n[var].output_name(0) && scalar_f32_of(
                ir,
                n[eps].inputs@[1]@,
            ) == Some(epsilon)) || (n[eps].inputs@[0]@ != n[var].output_name(0)
                && n[eps].inputs@[1]@ == n[var].output_name(0) && scalar_f32_of(
                ir,
                n[eps].inputs@[0]@,
            ) == Some(epsilon))
            &&& leads_to(ir, eps, sqrt)
            &&& n[sqrt].is_op("Sqrt"@) && n[sqrt].inputs@.len() > 0 && n[sqrt].inputs@[0]@
                == n[eps].output_name(0)
            &&& leads_to(ir, sqrt, div)
            &&& n[div].is_op("Div"@) && n[div].inputs@.len() == 2 && n[div].inputs@[0]@ == dev
                && n[div].inputs@[1]@ == n[sqrt].output_name(0)
            &&& leads_to(ir, div, mul)
            &&& n[mul].is_op("Mul"@) && n[mul].inputs@.len() == 2
            &&& (n[mul].inputs@[0]@ == n[div].output_name(0) && n[mul].inputs@[1]@ == scale) || (
            n[mul].inputs@[0]@ == scale && scale != n[div].output_name(0) && n[mul].inputs@[1]@
                == n[div].output_name(0))
            &&& crate::rewrite::layernorm::channels_of(ir, scale) is Some
            &&& leads_to(ir, mul, add)
            &&& n[add].is_op("Add"@) && n[add].inputs@.len() == 2
            &&& (n[add].inputs@[0]@ == n[mul].output_name(0) && n[add].inputs@[1]@ == bias) || (
            n[add].inputs@[0]@ == bias && bias != n[mul].output_name(0) && n[add].inputs@[1]@
                == n[mul].output_name(0))
            &&& crate::rewrite::layernorm::channels_of(ir, bias)
                == crate::rewrite::layernorm::channels_of(ir, scale)
        }),
    ensures
        pattern_at(ir, mean) matches Some(p) && p.inputs == seq![
            ir.nodes@[mean].input_name(0),
            scale,
            bias,
        ] && p.output == ir.nodes@[add].output_name(0) && p.epsilon == epsilon,
{
    reveal_strlit("Pow");
    reveal_strlit("Div");
    assert("Pow"@[0] != "Div"@[0]);
    let n = ir.nodes@;
    let dev = n[sub].output_name(0);
    let c = crate::rewrite::consumers_of(ir, dev);
    assert(!n[div].is_op("Pow"@));
    assert(crate::rewrite::layernorm::square_of(ir, c) == Some(pow as usize));
    let h = head_of(ir, mean);
    assert(h is Some && h->0.sub == sub && h->0.pow == pow);
    let q = root_of(ir, pow);
    assert(q is Some && q->0.sqrt == sqrt && q->0.epsilon == epsilon);
    assert(c.contains(div as usize)) by {
        assert(c[0] == div as usize || c[1] == div as usize);
    }
    assert(quotient_of(ir, sub, sqrt) == Some(div as usize));
    assert(scaling_of(ir, div) == Some((mul as usize, scale)));
    assert(bias_of(ir, mul, scale) == Some((add as usize, bias)));
}

// --- all of it --------------------------------------------------------------------------

/// **Preparing a graph keeps its values**, where the optional rewrites are off: whatever the
/// values of the graph were, the prepared graph has them.
pub proof fn law_prepared_keeps_values<V>(
    m: Meaning<V>,
    a: Arithmetic<V>,
    before: GraphIr,
    switches: Switches,
    s: Stages,
    after: GraphIr,
    val: spec_fn(Seq<char>) -> V,
)
    requires
        staged(before, switches, s, after),
        !switches.qk_reorder,
        !switches.df_folds,
        agrees(m, before, val),
        computes(m, a),
        constants_mean(m),
        folds_mean(m),
        all_named(before),
        patterns_have_one_output(before),
        before.nodes@.len() <= usize::MAX,
    ensures
        agrees(m, after, val),
{
    law_layernorm_keeps_values(m, a, s.masked, s.fused, s.counts[3], val);
    law_fold_keeps_values(m, s.fused, s.folded, s.counts[4], val);
    if s.counts[3] > 0 || s.counts[4] > 0 {
        law_prune_keeps_values(m, s.folded, s.kept, after, s.dropped, s.bytes, val);
    }
}

} // verus!
