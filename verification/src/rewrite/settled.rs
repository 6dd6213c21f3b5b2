//! Folding constants leaves nothing more to fold.

use crate::graph::{constant_def, constant_value, tensor_under, GraphIr, NodeIr, TensorView};
use crate::rewrite::fold::{
    constants_folded, count_set, fold_at, folded_nodes, folded_values, value_of, values_of,
};
use crate::rewrite::order::{in_order, lemma_rebuilt_from, makes_value, reads_value};
use crate::rewrite::{const_of, is_output, nothing, rebuilt};
use crate::text::texts;
use vstd::prelude::*;

verus! {

/// Whether no node that is left and has an omitted input stands before one that is folded to a
/// value without a name.
pub open spec fn omissions_settled(ir: GraphIr) -> bool {
    forall|i: int, p: int|
        #![trigger ir.nodes@[i], folded_nodes(ir)[p]]
        0 <= i < p < ir.nodes@.len() && texts(ir.nodes@[i].inputs@).contains(Seq::empty())
            && !folded_nodes(ir)[i] && folded_nodes(ir)[p] ==> ir.nodes@[p].output_name(0).len() > 0
}

proof fn lemma_rebuilt_len(nodes: Seq<NodeIr>, dropped: Seq<bool>, k: int)
    requires
        0 <= k <= nodes.len(),
    ensures
        rebuilt(nodes, dropped, nothing(nodes.len()), k).len() + count_set(dropped, k) == k,
    decreases k,
{
    if k > 0 {
        lemma_rebuilt_len(nodes, dropped, k - 1);
    }
}

proof fn lemma_rebuilt_whole(nodes: Seq<NodeIr>, dropped: Seq<bool>, k: int)
    requires
        0 <= k <= nodes.len(),
        forall|i: int| 0 <= i < k ==> !#[trigger] dropped[i],
    ensures
        rebuilt(nodes, dropped, nothing(nodes.len()), k) == nodes.take(k),
        count_set(dropped, k) == 0,
    decreases k,
{
    if k > 0 {
        lemma_rebuilt_whole(nodes, dropped, k - 1);
        assert(!dropped[k - 1]);
        assert(nodes.take(k) =~= nodes.take(k - 1).push(nodes[k - 1]));
    } else {
        assert(nodes.take(0) =~= Seq::empty());
    }
}

/// Dropping other nodes takes no value away that a `Constant` node gives.
pub proof fn lemma_constants_left(nodes: Seq<NodeIr>, dropped: Seq<bool>, k: int, name: Seq<char>)
    requires
        0 <= k <= nodes.len(),
        forall|i: int| 0 <= i < k && #[trigger] dropped[i] ==> constant_def(nodes[i]) is None,
    ensures
        constant_value(rebuilt(nodes, dropped, nothing(nodes.len()), k), name) == constant_value(
            nodes.take(k),
            name,
        ),
    decreases k,
{
    if k > 0 {
        lemma_constants_left(nodes, dropped, k - 1, name);
        let rest = rebuilt(nodes, dropped, nothing(nodes.len()), k - 1);
        let all = rebuilt(nodes, dropped, nothing(nodes.len()), k);
        assert(nodes.take(k).drop_last() =~= nodes.take(k - 1));
        assert(nodes.take(k).last() == nodes[k - 1]);
        if !dropped[k - 1] {
            assert(all.drop_last() =~= rest);
        }
    } else {
        assert(nodes.take(0) =~= Seq::empty());
    }
}

/// What a value was folded to stays where no later node is folded to the same value.
pub proof fn lemma_folded_stays(ir: GraphIr, name: Seq<char>, i: int, k: int)
    requires
        0 <= i <= k <= ir.nodes@.len(),
        forall|p: int|
            i <= p < k && #[trigger] folded_nodes(ir)[p] ==> ir.nodes@[p].output_name(0) != name,
    ensures
        folded_values(ir, i).contains_key(name) == folded_values(ir, k).contains_key(name),
        folded_values(ir, k).contains_key(name) ==> folded_values(ir, i)[name] == folded_values(
            ir,
            k,
        )[name],
    decreases k,
{
    if i < k {
        lemma_folded_stays(ir, name, i, k - 1);
        assert(folded_nodes(ir)[k - 1] == (fold_at(ir, folded_values(ir, k - 1), k - 1) is Some));
    }
}

/// A node that was left stands behind every node that is folded to a value that it reads.
proof fn lemma_folded_ahead(ir: GraphIr, i: int, name: Seq<char>, p: int)
    requires
        in_order(ir.nodes@),
        omissions_settled(ir),
        0 <= i < ir.nodes@.len(),
        0 <= p < ir.nodes@.len(),
        texts(ir.nodes@[i].inputs@).contains(name),
        !folded_nodes(ir)[i],
        folded_nodes(ir)[p],
        ir.nodes@[p].output_name(0) == name,
    ensures
        p < i,
{
    let node = ir.nodes@[p];
    assert(fold_at(ir, folded_values(ir, p), p) is Some);
    assert(texts(node.outputs@)[0] == name);
    if name.len() > 0 {
        assert(makes_value(node, name) && reads_value(ir.nodes@[i], name));
    } else {
        assert(name =~= Seq::empty());
    }
}

/// A value that is constant once everything is folded was constant when its reader was visited.
proof fn lemma_was_constant(before: GraphIr, after: GraphIr, r: int, i: int, name: Seq<char>)
    requires
        constants_folded(before, after, r),
        in_order(before.nodes@),
        omissions_settled(before),
        0 <= i < before.nodes@.len(),
        !folded_nodes(before)[i],
        texts(before.nodes@[i].inputs@).contains(name),
        const_of(after, name) is Some,
    ensures
        value_of(before, folded_values(before, i), name) == const_of(after, name),
{
    let nodes = before.nodes@;
    let n = nodes.len() as int;
    let f = folded_values(before, n);
    assert(tensor_under(after.initializers, name) == if f.contains_key(name) {
        Some(f[name])
    } else {
        tensor_under(before.initializers, name)
    });
    assert forall|p: int| i <= p < n && #[trigger] folded_nodes(before)[p] implies nodes[p].output_name(
        0,
    ) != name by {
        if nodes[p].output_name(0) == name {
            lemma_folded_ahead(before, i, name, p);
        }
    }
    lemma_folded_stays(before, name, i, n);
    if !f.contains_key(name) {
        if !before.initializers.has(name) {
            assert forall|j: int| 0 <= j < n && #[trigger] folded_nodes(before)[j] implies constant_def(
                nodes[j],
            ) is None by {
                assert(fold_at(before, folded_values(before, j), j) is Some);
            }
            lemma_constants_left(nodes, folded_nodes(before), n, name);
            assert(nodes.take(n) =~= nodes);
        }
    }
}

proof fn lemma_were_constant(
    before: GraphIr,
    after: GraphIr,
    r: int,
    i: int,
    names: Seq<Seq<char>>,
)
    requires
        constants_folded(before, after, r),
        in_order(before.nodes@),
        omissions_settled(before),
        0 <= i < before.nodes@.len(),
        !folded_nodes(before)[i],
        forall|q: int|
            0 <= q < names.len() ==> texts(before.nodes@[i].inputs@).contains(#[trigger] names[q]),
        values_of(after, Map::empty(), names) is Some,
    ensures
        values_of(before, folded_values(before, i), names) == values_of(
            after,
            Map::empty(),
            names,
        ),
    decreases names.len(),
{
    if names.len() > 0 {
        let rest = names.drop_last();
        assert forall|q: int| 0 <= q < rest.len() implies texts(
            before.nodes@[i].inputs@,
        ).contains(#[trigger] rest[q]) by {
            assert(rest[q] == names[q]);
        }
        lemma_were_constant(before, after, r, i, rest);
        assert(names.last() == names[names.len() - 1]);
        lemma_was_constant(before, after, r, i, names.last());
    }
}

/// A node that was left cannot be folded any more.
proof fn lemma_nothing_left(before: GraphIr, after: GraphIr, r: int, j: int)
    requires
        constants_folded(before, after, r),
        in_order(before.nodes@),
        omissions_settled(before),
        0 <= j < after.nodes@.len(),
    ensures
        fold_at(after, Map::empty(), j) is None,
{
    let nodes = before.nodes@;
    let n = nodes.len() as int;
    lemma_rebuilt_from(nodes, folded_nodes(before), n, j);
    let i = choose|i: int|
        0 <= i < n && !folded_nodes(before)[i] && #[trigger] nodes[i] == after.nodes@[j];
    let node = nodes[i];
    if fold_at(after, Map::empty(), j) is Some {
        let names = texts(node.inputs@);
        assert forall|q: int| 0 <= q < names.len() implies texts(nodes[i].inputs@).contains(
            #[trigger] names[q],
        ) by {}
        lemma_were_constant(before, after, r, i, names);
        assert(fold_at(before, folded_values(before, i), i) is Some);
    }
}

proof fn lemma_nothing_folded(before: GraphIr, after: GraphIr, r: int, k: int)
    requires
        constants_folded(before, after, r),
        in_order(before.nodes@),
        omissions_settled(before),
        0 <= k <= after.nodes@.len(),
    ensures
        folded_values(after, k) == Map::<Seq<char>, TensorView>::empty(),
    decreases k,
{
    if k > 0 {
        lemma_nothing_folded(before, after, r, k - 1);
        lemma_nothing_left(before, after, r, k - 1);
    }
}

/// **Folding twice folds nothing more**: a second call finds no node to fold and leaves the
/// graph as it is, whether or not several nodes make the same value.
///
/// The one thing that can leave work behind is an output without a name. Its value is kept under
/// the empty name, which is also what an omitted input is written as: a node that stands earlier
/// and leaves an input out was passed over in the first call, and counts as having all its inputs
/// constant in the second.
pub proof fn law_second_fold_is_idle(
    before: GraphIr,
    after: GraphIr,
    r: int,
    again: GraphIr,
    found: int,
)
    requires
        constants_folded(before, after, r),
        constants_folded(after, again, found),
        in_order(before.nodes@),
        omissions_settled(before),
    ensures
        found == 0,
        again.nodes@ == after.nodes@,
        again.inputs == after.inputs,
        again.outputs == after.outputs,
        forall|name: Seq<char>|
            #[trigger] tensor_under(again.initializers, name) == tensor_under(
                after.initializers,
                name,
            ),
{
    let n = after.nodes@.len() as int;
    let flags = folded_nodes(after);
    assert forall|j: int| 0 <= j < n implies !#[trigger] flags[j] by {
        lemma_nothing_folded(before, after, r, j);
        lemma_nothing_left(before, after, r, j);
    }
    lemma_rebuilt_whole(after.nodes@, flags, n);
    assert(after.nodes@.take(n) =~= after.nodes@);
    lemma_nothing_folded(before, after, r, n);
}

/// **What folding takes away is constant afterwards**: as many nodes go as are counted, and each
/// of them had one output, which is a constant now and was none of the graph's.
pub proof fn law_folded_are_constants(before: GraphIr, after: GraphIr, r: int, i: int)
    requires
        constants_folded(before, after, r),
        0 <= i < before.nodes@.len(),
    ensures
        r == before.nodes@.len() - after.nodes@.len(),
        folded_nodes(before)[i] ==> before.nodes@[i].outputs@.len() == 1
            && after.initializers.has(before.nodes@[i].output_name(0)) && !is_output(
            before,
            before.nodes@[i].output_name(0),
        ),
{
    let n = before.nodes@.len() as int;
    lemma_rebuilt_len(before.nodes@, folded_nodes(before), n);
    if folded_nodes(before)[i] {
        let name = before.nodes@[i].output_name(0);
        crate::rewrite::fold::law_fold_in_one_pass(before, i, n);
        assert(tensor_under(after.initializers, name) is Some);
    }
}

} // verus!
