//! What folded values are.

use crate::error::Kind;
use crate::execution::ExecutionEnv;
use crate::graph::{constant_def, tensor_under, GraphIr, NodeIr, TensorView};
use crate::host_ops::gather::zero_point_of;
use crate::host_ops::join::concat_of;
use crate::host_ops::{
    cast_of, elements, floats_of, ints_of, law_float_round_trip, lemma_sound_len, HostTensor, FLOAT,
};
use crate::interp::move_steps::{cast_step, reshape_step};
use crate::interp::reshape::{one_open, reshape_of, zeros_covered};
use crate::interp::work::{device_in, dtype_in, read_of, shape_in, ReadView, WorkView};
use crate::names::NameMap;
use crate::num::product_fits;
use crate::rewrite::fold::{
    completed, constants_folded, evaluated, first_open, fold_at, folded_nodes, folded_values,
    known_dims, substituted, value_of, values_of,
};
use crate::rewrite::order::{in_order, makes_value, reads_value};
use crate::rewrite::settled::{lemma_constants_left, lemma_folded_stays};
use crate::rewrite::{const_of, is_output};
use crate::shape::product;
use crate::text::texts;
use vstd::prelude::*;

verus! {

// --- each operator ----------------------------------------------------------------------

proof fn lemma_ops_apart()
    ensures
        "Reshape"@ != "Cast"@,
        "Reshape"@ != "Concat"@,
        "Reshape"@ != "DequantizeLinear"@,
        "Cast"@ != "Concat"@,
        "Cast"@ != "DequantizeLinear"@,
        "Concat"@ != "DequantizeLinear"@,
{
    reveal_strlit("Reshape");
    reveal_strlit("Cast");
    reveal_strlit("Concat");
    reveal_strlit("DequantizeLinear");
    assert("Reshape"@.len() == 7 && "Cast"@.len() == 4 && "Concat"@.len() == 6
        && "DequantizeLinear"@.len() == 16);
}

/// **A folded `Reshape` keeps type and bytes of its first input**; only the shape changes, to one
/// of as many elements with the dimensions that the second input asks for: 0 takes over the
/// dimension of the input, and -1 is whatever is left.
pub proof fn law_folded_reshape(node: NodeIr, inputs: Seq<TensorView>, t: TensorView)
    requires
        node.op@ == "Reshape"@,
        evaluated(node, inputs) == Some(t),
    ensures
        inputs.len() >= 2,
        t.dtype == inputs[0].dtype,
        t.data == inputs[0].data,
        product(t.shape) == product(inputs[0].shape),
        ints_of(inputs[1]) is Ok,
        ({
            let asked = ints_of(inputs[1])->Ok_0;
            &&& t.shape.len() == asked.len()
            &&& forall|d: int| 0 <= d < asked.len() ==> #[trigger] t.shape[d] >= 0
            &&& forall|d: int| 0 <= d < asked.len() && asked[d] > 0 ==> #[trigger] t.shape[d] == asked[d]
            &&& forall|d: int|
                0 <= d < asked.len() && asked[d] == 0 && d < inputs[0].shape.len() ==> #[trigger] t.shape[d]
                    == inputs[0].shape[d] || inputs[0].shape[d] == -1
        }),
{
    lemma_ops_apart();
    let asked = ints_of(inputs[1])->Ok_0;
    let sub = substituted(inputs[0].shape, asked);
    if exists|i: int| first_open(sub, i) {
        let i = choose|i: int| first_open(sub, i);
    }
}

/// **A `Reshape` to as many elements is folded**: dimensions that are all given, and hold what the
/// input holds, are taken as they are.
pub proof fn law_reshape_is_folded(node: NodeIr, inputs: Seq<TensorView>)
    requires
        node.op@ == "Reshape"@,
        node.domain@.len() == 0,
        inputs.len() >= 2,
        ints_of(inputs[1]) is Ok,
        product_fits(inputs[0].shape),
        product_fits(ints_of(inputs[1])->Ok_0),
        product(ints_of(inputs[1])->Ok_0) == product(inputs[0].shape),
        forall|d: int|
            0 <= d < ints_of(inputs[1])->Ok_0.len() ==> #[trigger] ints_of(inputs[1])->Ok_0[d] > 0,
    ensures
        evaluated(node, inputs) == Some(
            TensorView { shape: ints_of(inputs[1])->Ok_0, ..inputs[0] },
        ),
{
    lemma_ops_apart();
    let asked = ints_of(inputs[1])->Ok_0;
    let sub = substituted(inputs[0].shape, asked);
    assert(sub =~= asked);
    assert forall|i: int| !first_open(sub, i) by {
        if 0 <= i < sub.len() {
            assert(asked[i] > 0);
        }
    }
    assert(completed(sub, product(inputs[0].shape)) == Some(sub));
}

/// **A folded `Reshape` is what running it gives**: where the operands are on the host and the run
/// takes the target shape, it gives the same tensor.
pub proof fn law_reshape_folds_as_it_runs(
    env: ExecutionEnv,
    fetched: NameMap<HostTensor>,
    node: NodeIr,
    inputs: Seq<TensorView>,
    t: TensorView,
)
    requires
        node.op@ == "Reshape"@,
        evaluated(node, inputs) == Some(t),
        device_in(env, node, 0) is None,
        shape_in(env, node, 0) == Some(inputs[0].shape),
        read_of(env, fetched, node, 0) == ReadView::Here(inputs[0]),
        read_of(env, fetched, node, 1) == ReadView::Here(inputs[1]),
        product(inputs[0].shape) >= 0,
        zeros_covered(inputs[0].shape, ints_of(inputs[1])->Ok_0),
        one_open(substituted(inputs[0].shape, ints_of(inputs[1])->Ok_0)),
        product_fits(known_dims(substituted(inputs[0].shape, ints_of(inputs[1])->Ok_0))),
    ensures
        reshape_step(env, fetched, node) == Some(WorkView::Results(seq![t])),
{
    lemma_ops_apart();
    let asked = ints_of(inputs[1])->Ok_0;
    assert(reshape_of(inputs[0].shape, asked) == Some(t.shape));
}

/// **A folded `Cast` is what running it gives**, where the operand is on the host.
pub proof fn law_cast_folds_as_it_runs(
    env: ExecutionEnv,
    fetched: NameMap<HostTensor>,
    node: NodeIr,
    inputs: Seq<TensorView>,
    t: TensorView,
)
    requires
        node.op@ == "Cast"@,
        evaluated(node, inputs) == Some(t),
        device_in(env, node, 0) is None,
        dtype_in(env, node, 0) is Some,
        read_of(env, fetched, node, 0) == ReadView::Here(inputs[0]),
    ensures
        node.opt_int_attr("to"@) matches Some(to) && (i32::MIN <= to <= i32::MAX ==> cast_step(
            env,
            fetched,
            node,
        ) == Some(WorkView::Results(seq![t])) && t.dtype == to && t.shape == inputs[0].shape),
{
    lemma_ops_apart();
    let to = node.opt_int_attr("to"@)->Some_0;
    if i32::MIN <= to <= i32::MAX {
        let r = to as int % 0x1_0000_0000;
        assert(r == to || r == to + 0x1_0000_0000);
        assert(crate::rewrite::fold::narrowed(to) == to as i32);
    }
}

/// **A `Cast` of a constant is folded** where a host can make the type.
pub proof fn law_cast_is_folded(node: NodeIr, x: TensorView, to: i32)
    requires
        node.op@ == "Cast"@,
        node.domain@.len() == 0,
        node.opt_int_attr("to"@) == Some(to as i64),
    ensures
        evaluated(node, seq![x]) == (match cast_of(x, to) {
            Ok(t) => Some(t),
            Err(_) => None,
        }),
{
    lemma_ops_apart();
    let r = to as int % 0x1_0000_0000;
    assert(r == to || r == to + 0x1_0000_0000);
}

/// **A folded `Concat` joins its inputs in order** along the axis of the attribute.
pub proof fn law_folded_concat(node: NodeIr, inputs: Seq<TensorView>, t: TensorView)
    requires
        node.op@ == "Concat"@,
        evaluated(node, inputs) == Some(t),
    ensures
        node.opt_int_attr("axis"@) matches Some(axis) && concat_of(inputs, axis as int) == Ok::<
            TensorView,
            Kind,
        >(t),
{
    lemma_ops_apart();
}

/// **A folded `DequantizeLinear` is `(x - zero point) * scale`**, element by element, in single
/// precision: as many numbers in the same shape, the difference formed in integers and rounded
/// once, then multiplied by the only scale.
pub proof fn law_folded_dequantize(node: NodeIr, inputs: Seq<TensorView>, t: TensorView, i: int)
    requires
        node.op@ == "DequantizeLinear"@,
        evaluated(node, inputs) == Some(t),
        0 <= i < elements(inputs[0]),
        64 * elements(inputs[0]) + 7 <= usize::MAX,
    ensures
        inputs.len() >= 2,
        t.dtype == FLOAT,
        t.shape == inputs[0].shape,
        ints_of(inputs[0]) is Ok,
        floats_of(inputs[1]) is Ok,
        floats_of(inputs[1])->Ok_0.len() == 1,
        inputs.len() > 2 ==> inputs[2].dtype == inputs[0].dtype && ints_of(inputs[2]) is Ok && ints_of(
            inputs[2],
        )->Ok_0.len() == 1,
        ({
            let zero = if inputs.len() > 2 {
                ints_of(inputs[2])->Ok_0[0] as int
            } else {
                0
            };
            let x = ints_of(inputs[0])->Ok_0[i] - zero;
            floats_of(t) matches Ok(v) && v.len() == elements(inputs[0]) && v[i]
                == crate::floats::mul_spec(
                crate::floats::from_i64_spec(x),
                floats_of(inputs[1])->Ok_0[0],
            )
        }),
{
    lemma_ops_apart();
    let zero = if inputs.len() > 2 {
        Some(inputs[2])
    } else {
        None
    };
    let z = zero_point_of(inputs[0], zero)->Ok_0;
    let s = floats_of(inputs[1])->Ok_0;
    let v = ints_of(inputs[0])->Ok_0;
    lemma_sound_len(inputs[0]);
    let out = v.map_values(|e: i64| crate::floats::mul_spec(crate::floats::from_i64_spec(e - z), s[0]));
    law_float_round_trip(inputs[0].shape, out);
}

// --- the whole graph --------------------------------------------------------------------

proof fn lemma_values(ir: GraphIr, folded: Map<Seq<char>, TensorView>, names: Seq<Seq<char>>, j: int)
    requires
        values_of(ir, folded, names) is Some,
        0 <= j < names.len(),
    ensures
        values_of(ir, folded, names)->Some_0.len() == names.len(),
        value_of(ir, folded, names[j]) == Some(values_of(ir, folded, names)->Some_0[j]),
    decreases names.len(),
{
    if j < names.len() - 1 {
        lemma_values(ir, folded, names.drop_last(), j);
    } else if names.len() > 1 {
        lemma_values(ir, folded, names.drop_last(), 0);
    } else {
        assert(names.drop_last().len() == 0);
    }
}

/// A value that a node reads is the same constant when the node is visited and afterwards.
proof fn lemma_same_constant(before: GraphIr, after: GraphIr, r: int, i: int, name: Seq<char>)
    requires
        constants_folded(before, after, r),
        in_order(before.nodes@),
        0 <= i < before.nodes@.len(),
        reads_value(before.nodes@[i], name),
    ensures
        value_of(before, folded_values(before, i), name) == const_of(after, name),
{
    let nodes = before.nodes@;
    let n = nodes.len() as int;
    let f = folded_values(before, n);
    assert(tensor_under(after.initializers, name) == if f.contains_key(name) {
        Some(f[name])
    } else {
        tensor_under(before.initializers, name)
    });
    assert forall|p: int| i <= p < n && #[trigger] folded_nodes(before)[p] implies nodes[p].output_name(
        0,
    ) != name by {
        if nodes[p].output_name(0) == name {
            assert(fold_at(before, folded_values(before, p), p) is Some);
            assert(texts(nodes[p].outputs@)[0] == name);
            assert(makes_value(nodes[p], name));
        }
    }
    lemma_folded_stays(before, name, i, n);
    if !f.contains_key(name) && !before.initializers.has(name) {
        assert forall|j: int| 0 <= j < n && #[trigger] folded_nodes(before)[j] implies constant_def(
            nodes[j],
        ) is None by {
            assert(fold_at(before, folded_values(before, j), j) is Some);
        }
        lemma_constants_left(nodes, folded_nodes(before), n, name);
        assert(nodes.take(n) =~= nodes);
    }
}

/// **A node is folded to its own value**: afterwards the graph holds under its output what the
/// node gives on its inputs, one by one in their order, as the graph holds them as constants.
pub proof fn law_folded_value(before: GraphIr, after: GraphIr, r: int, i: int)
    requires
        constants_folded(before, after, r),
        in_order(before.nodes@),
        0 <= i < before.nodes@.len(),
        folded_nodes(before)[i],
        forall|j: int|
            0 <= j < before.nodes@[i].inputs@.len() ==> (#[trigger] before.nodes@[i].inputs@[j])@.len()
                > 0,
        before.nodes@[i].output_name(0).len() > 0,
        forall|p: int|
            i < p < before.nodes@.len() ==> !makes_value(
                #[trigger] before.nodes@[p],
                before.nodes@[i].output_name(0),
            ),
    ensures
        exists|inputs: Seq<TensorView>|
            #[trigger] evaluated(before.nodes@[i], inputs) == tensor_under(
                after.initializers,
                before.nodes@[i].output_name(0),
            ) && tensor_under(after.initializers, before.nodes@[i].output_name(0)) is Some
                && inputs.len() == before.nodes@[i].inputs@.len() && forall|j: int|
                0 <= j < inputs.len() ==> const_of(after, before.nodes@[i].inputs@[j]@) == Some(
                    #[trigger] inputs[j],
                ),
{
    let node = before.nodes@[i];
    let n = before.nodes@.len() as int;
    let name = node.output_name(0);
    let names = texts(node.inputs@);
    let folded = folded_values(before, i);
    assert(fold_at(before, folded, i) is Some);
    let inputs = values_of(before, folded, names)->Some_0;
    assert forall|j: int| 0 <= j < names.len() implies inputs.len() == names.len() && const_of(
        after,
        node.inputs@[j]@,
    ) == Some(#[trigger] inputs[j]) by {
        lemma_values(before, folded, names, j);
        assert(names[j] == node.inputs@[j]@);
        assert(names.contains(names[j]));
        lemma_same_constant(before, after, r, i, names[j]);
    }
    if names.len() == 0 {
        assert(false);
    }
    assert(inputs.len() == names.len()) by {
        assert(0 <= 0 < names.len());
        lemma_values(before, folded, names, 0);
    }
    assert forall|p: int| i + 1 <= p < n && #[trigger] folded_nodes(before)[p] implies before.nodes@[p].output_name(
        0,
    ) != name by {
        if before.nodes@[p].output_name(0) == name {
            assert(fold_at(before, folded_values(before, p), p) is Some);
            assert(texts(before.nodes@[p].outputs@)[0] == name);
            assert(makes_value(before.nodes@[p], name));
        }
    }
    lemma_folded_stays(before, name, i + 1, n);
    assert(folded_values(before, i + 1).contains_key(name));
    assert(tensor_under(after.initializers, name) == Some(folded_values(before, n)[name]));
    assert(evaluated(node, inputs) == tensor_under(after.initializers, name));
}

/// **Whatever can be folded is**: a node of the graph that is left, has one output which is none
/// of the graph's, and all of whose inputs are named constants of the graph, has no value that
/// could be computed at load time.
pub proof fn law_rest_cannot_be_folded(before: GraphIr, after: GraphIr, r: int, i: int, inputs: Seq<
    TensorView,
>)
    requires
        constants_folded(before, after, r),
        in_order(before.nodes@),
        0 <= i < before.nodes@.len(),
        !folded_nodes(before)[i],
        before.nodes@[i].op@ != "Constant"@,
        before.nodes@[i].inputs@.len() > 0,
        before.nodes@[i].outputs@.len() == 1,
        !is_output(before, before.nodes@[i].output_name(0)),
        inputs.len() == before.nodes@[i].inputs@.len(),
        forall|j: int|
            0 <= j < inputs.len() ==> (#[trigger] before.nodes@[i].inputs@[j])@.len() > 0,
        forall|j: int|
            0 <= j < inputs.len() ==> const_of(after, before.nodes@[i].inputs@[j]@) == Some(
                #[trigger] inputs[j],
            ),
    ensures
        evaluated(before.nodes@[i], inputs) is None,
{
    let node = before.nodes@[i];
    let names = texts(node.inputs@);
    let folded = folded_values(before, i);
    assert forall|j: int| 0 <= j < names.len() implies value_of(before, folded, #[trigger] names[j])
        == Some(inputs[j]) by {
        assert(names[j] == node.inputs@[j]@);
        assert(node.inputs@[j]@.len() > 0);
        assert(names.contains(names[j]));
        lemma_same_constant(before, after, r, i, names[j]);
    }
    lemma_all_values(before, folded, names, inputs);
    assert(fold_at(before, folded, i) is None);
}

proof fn lemma_all_values(
    ir: GraphIr,
    folded: Map<Seq<char>, TensorView>,
    names: Seq<Seq<char>>,
    inputs: Seq<TensorView>,
)
    requires
        names.len() == inputs.len(),
        forall|j: int|
            0 <= j < names.len() ==> value_of(ir, folded, #[trigger] names[j]) == Some(inputs[j]),
    ensures
        values_of(ir, folded, names) == Some(inputs),
    decreases names.len(),
{
    if names.len() > 0 {
        let rest = names.drop_last();
        assert forall|j: int| 0 <= j < rest.len() implies value_of(ir, folded, #[trigger] rest[j])
            == Some(inputs.drop_last()[j]) by {
            assert(rest[j] == names[j]);
        }
        lemma_all_values(ir, folded, rest, inputs.drop_last());
        assert(names.last() == names[names.len() - 1]);
        assert(inputs.drop_last().push(inputs.last()) =~= inputs);
    } else {
        assert(inputs =~= Seq::empty());
    }
}

/// **Constants say what the graph says**: an initializer is what the graph lists under the name,
/// and any other constant is the value of a `Constant` node that makes it.
pub proof fn law_constants_are_given(ir: GraphIr, name: Seq<char>)
    ensures
        ir.initializers.has(name) ==> const_of(ir, name) == Some(ir.initializers.at(name)@),
        !ir.initializers.has(name) && const_of(ir, name) is Some ==> exists|i: int|
            0 <= i < ir.nodes@.len() && (#[trigger] ir.nodes@[i]).op@ == "Constant"@
                && ir.nodes@[i].domain@.len() == 0 && ir.nodes@[i].outputs@.len() > 0
                && ir.nodes@[i].outputs@[0]@ == name && ir.nodes@[i].attrs.has("value"@)
                && ir.nodes@[i].attrs.at("value"@) is Tensor && const_of(ir, name) == Some(
                (ir.nodes@[i].attrs.at("value"@)->Tensor_0)@,
            ),
{
    if !ir.initializers.has(name) && const_of(ir, name) is Some {
        let n = ir.nodes@.len() as int;
        assert(ir.nodes@.take(n) =~= ir.nodes@);
        let i = lemma_constant_from(ir.nodes@, n, name);
        assert(constant_def(ir.nodes@[i]) is Some);
    }
}

proof fn lemma_constant_from(nodes: Seq<NodeIr>, k: int, name: Seq<char>) -> (i: int)
    requires
        0 <= k <= nodes.len(),
        crate::graph::constant_value(nodes.take(k), name) is Some,
    ensures
        0 <= i < k,
        constant_def(nodes[i]) matches Some(d) && d.0 == name && crate::graph::constant_value(
            nodes.take(k),
            name,
        ) == Some(d.1),
    decreases k,
{
    let all = nodes.take(k);
    if k > 0 {
        assert(all.last() == nodes[k - 1]);
        assert(all.drop_last() =~= nodes.take(k - 1));
        match constant_def(nodes[k - 1]) {
            Some(d) if d.0 == name => k - 1,
            _ => lemma_constant_from(nodes, k - 1, name),
        }
    } else {
        0
    }
}

} // verus!
