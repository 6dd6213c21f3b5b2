//! Rewrites leave no value without a source.

use crate::graph::{constant_def, constant_value, tensor_under, GraphIr, NodeIr};
use crate::rewrite::fold::{constants_folded, fold_at, folded_nodes, folded_values};
use crate::rewrite::layernorm::{
    bias_of, claims, dropped_by, ends_at, head_of, is_free, is_fused, last_of, layernorm_fused,
    law_pattern_closed, pattern_at, patterns, quotient_of, replaced_by, root_of, scaling_of,
};
use crate::rewrite::order::{
    in_order, in_place, lemma_in_place, lemma_needed_from, lemma_pattern, lemma_patterns_from,
    lemma_rebuilt_from, makes_value, reads_value,
};
use crate::rewrite::prune::{
    initializers_pruned, is_live, is_needed, is_read, law_prune_keeps, nodes_pruned, prune_round,
    prune_rounds,
};
use crate::rewrite::{
    const_of, consumers_of, is_output, lemma_readers, nothing, rebuilt,
};
use crate::text::texts;
use vstd::prelude::*;

verus! {

/// Whether one of the nodes makes the value `name`.
pub open spec fn made(nodes: Seq<NodeIr>, name: Seq<char>) -> bool {
    exists|j: int| 0 <= j < nodes.len() && makes_value(#[trigger] nodes[j], name)
}

/// Whether the value `name` is a constant or an input of the graph.
pub open spec fn given(ir: GraphIr, name: Seq<char>) -> bool {
    ir.initializers.has(name) || texts(ir.inputs@).contains(name)
}

/// Whether the value `name` has a source.
pub open spec fn has_source(ir: GraphIr, name: Seq<char>) -> bool {
    made(ir.nodes@, name) || given(ir, name)
}

/// Whether every value that a node reads, or that the graph gives to its caller, has a source.
pub open spec fn supplied(ir: GraphIr) -> bool {
    &&& forall|i: int, name: Seq<char>|
        0 <= i < ir.nodes@.len() && #[trigger] reads_value(ir.nodes@[i], name) ==> has_source(
            ir,
            name,
        )
    &&& forall|name: Seq<char>|
        name.len() > 0 && #[trigger] texts(ir.outputs@).contains(name) ==> has_source(ir, name)
}

proof fn lemma_rebuilt_to(nodes: Seq<NodeIr>, dropped: Seq<bool>, k: int, i: int)
    requires
        0 <= i < k <= nodes.len(),
        !dropped[i],
    ensures
        rebuilt(nodes, dropped, nothing(nodes.len()), k).contains(nodes[i]),
    decreases k,
{
    let rest = rebuilt(nodes, dropped, nothing(nodes.len()), k - 1);
    let all = rebuilt(nodes, dropped, nothing(nodes.len()), k);
    if i < k - 1 {
        lemma_rebuilt_to(nodes, dropped, k - 1, i);
        let a = rest.index_of(nodes[i]);
        assert(all[a] == nodes[i]);
    } else {
        assert(all[rest.len() as int] == nodes[i]);
    }
}

/// A kept node still makes what it made.
pub proof fn lemma_still_made(nodes: Seq<NodeIr>, dropped: Seq<bool>, j: int, name: Seq<char>)
    requires
        0 <= j < nodes.len(),
        !dropped[j],
        makes_value(nodes[j], name),
    ensures
        made(rebuilt(nodes, dropped, nothing(nodes.len()), nodes.len() as int), name),
{
    let all = rebuilt(nodes, dropped, nothing(nodes.len()), nodes.len() as int);
    lemma_rebuilt_to(nodes, dropped, nodes.len() as int, j);
    let a = all.index_of(nodes[j]);
    assert(makes_value(all[a], name));
}

// --- folded constants -------------------------------------------------------------------

proof fn lemma_folded_kept(ir: GraphIr, k: int, i: int)
    requires
        0 <= i < k,
        fold_at(ir, folded_values(ir, i), i) is Some,
    ensures
        folded_values(ir, k).contains_key(ir.nodes@[i].output_name(0)),
    decreases k,
{
    if i < k - 1 {
        lemma_folded_kept(ir, k - 1, i);
    }
}

proof fn lemma_fold_source(before: GraphIr, after: GraphIr, r: int, name: Seq<char>)
    requires
        constants_folded(before, after, r),
        has_source(before, name),
    ensures
        has_source(after, name),
{
    let nodes = before.nodes@;
    let n = nodes.len() as int;
    let f = folded_values(before, n);
    let dropped = folded_nodes(before);
    assert(tensor_under(after.initializers, name) == if f.contains_key(name) {
        Some(f[name])
    } else {
        tensor_under(before.initializers, name)
    });
    if !given(before, name) {
        let j = choose|j: int| 0 <= j < nodes.len() && makes_value(#[trigger] nodes[j], name);
        if dropped[j] {
            lemma_folded_kept(before, n, j);
            let k = texts(nodes[j].outputs@).index_of(name);
            assert(texts(nodes[j].outputs@)[k] == name);
            assert(name == nodes[j].output_name(0));
        } else {
            lemma_still_made(nodes, dropped, j, name);
        }
    }
}

/// **Folding constants leaves every value its source**: what a folded node made is a constant
/// now.
pub proof fn law_fold_keeps_sources(before: GraphIr, after: GraphIr, r: int)
    requires
        constants_folded(before, after, r),
        supplied(before),
    ensures
        supplied(after),
{
    let nodes = before.nodes@;
    let n = nodes.len() as int;
    assert forall|i: int, name: Seq<char>|
        0 <= i < after.nodes@.len() && #[trigger] reads_value(after.nodes@[i], name) implies has_source(
        after,
        name,
    ) by {
        lemma_rebuilt_from(nodes, folded_nodes(before), n, i);
        let a = choose|a: int|
            0 <= a < n && !folded_nodes(before)[a] && #[trigger] nodes[a] == after.nodes@[i];
        assert(reads_value(nodes[a], name));
        lemma_fold_source(before, after, r, name);
    }
    assert forall|name: Seq<char>|
        name.len() > 0 && #[trigger] texts(after.outputs@).contains(name) implies has_source(
        after,
        name,
    ) by {
        assert(texts(before.outputs@).contains(name));
        lemma_fold_source(before, after, r, name);
    }
}

// --- dropped nodes ----------------------------------------------------------------------

proof fn lemma_round_source(nodes: Seq<NodeIr>, outputs: Seq<String>, name: Seq<char>)
    requires
        made(nodes, name),
        is_read(nodes, name) || texts(outputs).contains(name),
    ensures
        made(prune_round(nodes, outputs), name),
{
    let j = choose|j: int| 0 <= j < nodes.len() && makes_value(#[trigger] nodes[j], name);
    let k = texts(nodes[j].outputs@).index_of(name);
    assert(texts(nodes[j].outputs@)[k] == name);
    assert(nodes[j].outputs@[k]@ == name);
    assert(is_live(nodes, outputs, nodes[j].outputs@[k]@));
    assert(is_needed(nodes, outputs, nodes[j]));
    law_prune_keeps(nodes, outputs, j);
    let left = prune_round(nodes, outputs);
    let a = left.index_of(nodes[j]);
    assert(makes_value(left[a], name));
}

/// Whether every value that a node reads, or that is asked for, is made or is outside.
pub open spec fn sourced(
    nodes: Seq<NodeIr>,
    outputs: Seq<String>,
    outside: spec_fn(Seq<char>) -> bool,
) -> bool {
    &&& forall|i: int, name: Seq<char>|
        0 <= i < nodes.len() && #[trigger] reads_value(nodes[i], name) ==> made(nodes, name)
            || outside(name)
    &&& forall|name: Seq<char>|
        name.len() > 0 && #[trigger] texts(outputs).contains(name) ==> made(nodes, name)
            || outside(name)
}

proof fn lemma_rounds_source(
    nodes: Seq<NodeIr>,
    outputs: Seq<String>,
    outside: spec_fn(Seq<char>) -> bool,
    k: nat,
)
    requires
        sourced(nodes, outputs, outside),
    ensures
        sourced(prune_rounds(nodes, outputs, k), outputs, outside),
    decreases k,
{
    if k > 0 {
        let rest = prune_rounds(nodes, outputs, (k - 1) as nat);
        lemma_rounds_source(nodes, outputs, outside, (k - 1) as nat);
        let left = prune_round(rest, outputs);
        assert forall|i: int, name: Seq<char>|
            0 <= i < left.len() && #[trigger] reads_value(left[i], name) implies made(left, name)
            || outside(name) by {
            lemma_needed_from(rest, outputs, rest.len() as int, i);
            let a = choose|a: int| 0 <= a < rest.len() && #[trigger] rest[a] == left[i];
            assert(reads_value(rest[a], name));
            if made(rest, name) {
                assert(texts(rest[a].inputs@).contains(name));
                assert(is_read(rest, name));
                lemma_round_source(rest, outputs, name);
            }
        }
        assert forall|name: Seq<char>|
            name.len() > 0 && #[trigger] texts(outputs).contains(name) implies made(left, name)
            || outside(name) by {
            if made(rest, name) {
                lemma_round_source(rest, outputs, name);
            }
        }
    }
}

/// **Dropping what nothing needs leaves every value its source.**
pub proof fn law_prune_keeps_sources(before: GraphIr, after: GraphIr, r: int)
    requires
        nodes_pruned(before, after, r),
        supplied(before),
    ensures
        supplied(after),
{
    let outside = |name: Seq<char>| given(before, name);
    assert forall|i: int, name: Seq<char>|
        0 <= i < before.nodes@.len() && #[trigger] reads_value(before.nodes@[i], name) implies made(
        before.nodes@,
        name,
    ) || outside(name) by {
        assert(has_source(before, name));
    }
    assert forall|name: Seq<char>|
        name.len() > 0 && #[trigger] texts(before.outputs@).contains(name) implies made(
        before.nodes@,
        name,
    ) || outside(name) by {
        assert(has_source(before, name));
    }
    let k = choose|k: nat|
        after.nodes@ == #[trigger] prune_rounds(before.nodes@, before.outputs@, k);
    lemma_rounds_source(before.nodes@, before.outputs@, outside, k);
}

/// **Dropping constants leaves every value its source**: a constant that is read stays.
pub proof fn law_constants_keep_sources(before: GraphIr, after: GraphIr, r: int)
    requires
        initializers_pruned(before, after, r),
        supplied(before),
    ensures
        supplied(after),
{
    assert forall|i: int, name: Seq<char>|
        0 <= i < after.nodes@.len() && #[trigger] reads_value(after.nodes@[i], name) implies has_source(
        after,
        name,
    ) by {
        assert(reads_value(before.nodes@[i], name));
        assert(has_source(before, name));
        assert(texts(before.nodes@[i].inputs@).contains(name));
        assert(is_live(before.nodes@, before.outputs@, name));
        assert(after.initializers.has(name) == (before.initializers.has(name) && is_live(
            before.nodes@,
            before.outputs@,
            name,
        )));
    }
    assert forall|name: Seq<char>|
        name.len() > 0 && #[trigger] texts(after.outputs@).contains(name) implies has_source(
        after,
        name,
    ) by {
        assert(has_source(before, name));
        assert(is_live(before.nodes@, before.outputs@, name));
        assert(after.initializers.has(name) == (before.initializers.has(name) && is_live(
            before.nodes@,
            before.outputs@,
            name,
        )));
    }
}

// --- fused normalizations ---------------------------------------------------------------

proof fn lemma_patterns_apart(ir: GraphIr, k: int, a: int, b: int, i: usize)
    requires
        0 <= k,
        0 <= a < b < patterns(ir, k).len(),
        patterns(ir, k)[a].members.contains(i),
        patterns(ir, k)[b].members.contains(i),
    ensures
        a == b,
    decreases k,
{
    if k > 0 {
        let rest = patterns(ir, k - 1);
        let all = patterns(ir, k);
        if b < rest.len() {
            lemma_patterns_apart(ir, k - 1, a, b, i);
        } else {
            let m = all[b];
            assert(is_free(rest, m));
            let q = m.members.index_of(i);
            assert(m.members[q] == i);
            assert(rest[a].members.contains(i));
            assert(claims(rest, m.members[q]));
        }
    }
}

pub proof fn lemma_constant_made(nodes: Seq<NodeIr>, name: Seq<char>)
    requires
        constant_value(nodes, name) is Some,
    ensures
        exists|c: int|
            0 <= c < nodes.len() && (#[trigger] nodes[c]).op@ == "Constant"@
                && nodes[c].outputs@.len() > 0 && nodes[c].outputs@[0]@ == name,
    decreases nodes.len(),
{
    if nodes.len() > 0 {
        match constant_def(nodes.last()) {
            Some(d) if d.0 == name => {
                assert(nodes[nodes.len() - 1].op@ == "Constant"@);
            },
            _ => {
                lemma_constant_made(nodes.drop_last(), name);
                let c = choose|c: int|
                    0 <= c < nodes.drop_last().len() && (#[trigger] nodes.drop_last()[c]).op@
                        == "Constant"@ && nodes.drop_last()[c].outputs@.len() > 0
                        && nodes.drop_last()[c].outputs@[0]@ == name;
                assert(nodes[c] == nodes.drop_last()[c]);
            },
        }
    }
}

/// No node of a pattern is a `Constant`.
proof fn lemma_members_compute(ir: GraphIr, root: int, k: int)
    requires
        0 <= root < ir.nodes@.len(),
        ir.nodes@.len() <= usize::MAX,
        pattern_at(ir, root) is Some,
        0 <= k < pattern_at(ir, root)->0.members.len(),
    ensures
        ir.nodes@[pattern_at(ir, root)->0.members[k] as int].op@ != "Constant"@,
{
    reveal_strlit("Constant");
    reveal_strlit("ReduceMean");
    reveal_strlit("Sub");
    reveal_strlit("Pow");
    reveal_strlit("Add");
    reveal_strlit("Sqrt");
    reveal_strlit("Div");
    reveal_strlit("Mul");
    let m = pattern_at(ir, root)->0;
    let s = m.members;
    let h = head_of(ir, root)->0;
    let q = root_of(ir, h.pow as int)->0;
    let div = quotient_of(ir, h.sub as int, q.sqrt as int)->0;
    let (mul, scale) = scaling_of(ir, div as int)->0;
    assert(s[0] == root && s[1] == h.sub && s[2] == h.pow && s[3] == q.var && s[4] == q.eps && s[5]
        == q.sqrt && s[6] == div && s[7] == mul);
    let nodes = ir.nodes@;
    assert(nodes[root].op@ == "ReduceMean"@);
    assert(nodes[h.sub as int].op@ == "Sub"@);
    assert(nodes[h.pow as int].op@ == "Pow"@);
    assert(nodes[q.var as int].op@ == "ReduceMean"@);
    assert(nodes[q.eps as int].op@ == "Add"@);
    assert(nodes[q.sqrt as int].op@ == "Sqrt"@);
    assert(nodes[div as int].op@ == "Div"@);
    assert(nodes[mul as int].op@ == "Mul"@);
    assert("Constant"@.len() == 8);
    assert("ReduceMean"@.len() == 10);
    if k == 8 {
        let b = bias_of(ir, mul as int, scale)->0;
        assert(s[8] == b.0);
        assert(nodes[b.0 as int].op@ == "Add"@);
    }
}

/// The names that a pattern reads besides its argument are constants.
proof fn lemma_parameters(ir: GraphIr, root: int, k: int)
    requires
        pattern_at(ir, root) is Some,
        1 <= k < pattern_at(ir, root)->0.inputs.len(),
    ensures
        const_of(ir, pattern_at(ir, root)->0.inputs[k]) is Some,
{
    let h = head_of(ir, root)->0;
    let q = root_of(ir, h.pow as int)->0;
    let div = quotient_of(ir, h.sub as int, q.sqrt as int)->0;
    let (mul, scale) = scaling_of(ir, div as int)->0;
    match bias_of(ir, mul as int, scale) {
        None => {},
        Some(b) => {},
    }
}

/// A kept node makes, in its place or replaced, what its only output was.
proof fn lemma_fuse_kept(
    ir: GraphIr,
    replaced: Seq<Option<NodeIr>>,
    j: int,
    name: Seq<char>,
)
    requires
        in_order(ir.nodes@),
        replaced.len() == ir.nodes@.len(),
        replaced_by(patterns(ir, ir.nodes@.len() as int), replaced),
        0 <= j < ir.nodes@.len(),
        makes_value(ir.nodes@[j], name),
        replaced[j] is Some ==> ir.nodes@[j].outputs@.len() == 1,
    ensures
        makes_value(in_place(ir.nodes@, replaced)[j], name),
{
    let nodes = ir.nodes@;
    let ms = patterns(ir, nodes.len() as int);
    match replaced[j] {
        None => {},
        Some(x) => {
            let p = choose|p: int|
                0 <= p < ms.len() && last_of((#[trigger] ms[p]).members) == j && is_fused(
                    x,
                    ms[p],
                );
            lemma_patterns_from(ir, nodes.len() as int, p);
            let root = choose|root: int|
                0 <= root < nodes.len() && (#[trigger] pattern_at(ir, root)) == Some(ms[p]);
            lemma_pattern(ir, root);
            let k = texts(nodes[j].outputs@).index_of(name);
            assert(texts(nodes[j].outputs@)[k] == name);
            assert(texts(x.outputs@)[0] == name);
        },
    }
}

/// A value that a node of a pattern makes, other than the last, is read only by the pattern.
proof fn lemma_inner_value(ir: GraphIr, root: int, j: int, name: Seq<char>, r: int)
    requires
        in_order(ir.nodes@),
        0 <= root < ir.nodes@.len(),
        pattern_at(ir, root) is Some,
        pattern_at(ir, root)->0.members.contains(j as usize),
        0 <= j < ir.nodes@.len(),
        last_of(pattern_at(ir, root)->0.members) != j,
        ir.nodes@[j].outputs@.len() == 1,
        makes_value(ir.nodes@[j], name),
        0 <= r < ir.nodes@.len(),
    ensures
        reads_value(ir.nodes@[r], name) ==> pattern_at(ir, root)->0.members.contains(r as usize),
        !is_output(ir, name),
{
    let m = pattern_at(ir, root)->0;
    assert(ir.nodes.len() == ir.nodes@.len());
    lemma_pattern(ir, root);
    let k = m.members.index_of(j as usize);
    assert(m.members[k] == j);
    assert(k < m.members.len() - 1);
    law_pattern_closed(ir, root, k);
    let o = texts(ir.nodes@[j].outputs@).index_of(name);
    assert(texts(ir.nodes@[j].outputs@)[o] == name);
    assert(name == ir.nodes@[j].output_name(0));
    if reads_value(ir.nodes@[r], name) {
        lemma_readers(ir.nodes@, name, ir.nodes@.len() as int);
        let c = consumers_of(ir, name);
        assert(c.contains(r as usize));
        let q = c.index_of(r as usize);
        assert(m.members.contains(c[q]));
    }
}

/// Whether every node that a fused pattern takes up has one output.
pub open spec fn patterns_have_one_output(ir: GraphIr) -> bool {
    forall|i: int|
        0 <= i < ir.nodes@.len() && claims(patterns(ir, ir.nodes@.len() as int), i as usize)
            ==> (#[trigger] ir.nodes@[i]).outputs@.len() == 1
}

/// What is left once the patterns are fused.
pub open spec fn left(ir: GraphIr, replaced: Seq<Option<NodeIr>>) -> Seq<NodeIr> {
    rebuilt(
        in_place(ir.nodes@, replaced),
        dropped_by(patterns(ir, ir.nodes@.len() as int), ir.nodes@.len()),
        nothing(ir.nodes@.len()),
        ir.nodes@.len() as int,
    )
}

/// Where a fused node stands a pattern ends.
proof fn lemma_fused_at(ir: GraphIr, replaced: Seq<Option<NodeIr>>, i: int) -> (r: (int, int))
    requires
        in_order(ir.nodes@),
        replaced.len() == ir.nodes@.len(),
        replaced_by(patterns(ir, ir.nodes@.len() as int), replaced),
        0 <= i < ir.nodes@.len(),
        replaced[i] is Some,
    ensures
        ({
            let ms = patterns(ir, ir.nodes@.len() as int);
            &&& 0 <= r.0 < ms.len()
            &&& last_of(ms[r.0].members) == i
            &&& is_fused(replaced[i]->0, ms[r.0])
            &&& 0 <= r.1 < ir.nodes@.len()
            &&& pattern_at(ir, r.1) == Some(ms[r.0])
            &&& ms[r.0].members.contains(i as usize)
            &&& claims(ms, i as usize)
        }),
{
    let n = ir.nodes@.len() as int;
    let ms = patterns(ir, n);
    let p = choose|p: int|
        0 <= p < ms.len() && last_of((#[trigger] ms[p]).members) == i && is_fused(
            replaced[i]->0,
            ms[p],
        );
    lemma_patterns_from(ir, n, p);
    let root = choose|root: int|
        0 <= root < n && (#[trigger] pattern_at(ir, root)) == Some(ms[p]);
    lemma_pattern(ir, root);
    assert(ms[p].members.contains(ms[p].members.last()));
    (p, root)
}

/// A node that is no part of a pattern is left, and makes what it made.
proof fn lemma_constant_left(ir: GraphIr, replaced: Seq<Option<NodeIr>>, name: Seq<char>)
    requires
        in_order(ir.nodes@),
        replaced.len() == ir.nodes@.len(),
        replaced_by(patterns(ir, ir.nodes@.len() as int), replaced),
        name.len() > 0,
        constant_value(ir.nodes@, name) is Some,
    ensures
        made(left(ir, replaced), name),
{
    let nodes = ir.nodes@;
    let n = nodes.len() as int;
    let ms = patterns(ir, n);
    assert(ir.nodes.len() == n);
    lemma_constant_made(nodes, name);
    let c = choose|c: int|
        0 <= c < nodes.len() && (#[trigger] nodes[c]).op@ == "Constant"@ && nodes[c].outputs@.len()
            > 0 && nodes[c].outputs@[0]@ == name;
    assert(texts(nodes[c].outputs@)[0] == name);
    assert(makes_value(nodes[c], name));
    assert(!claims(ms, c as usize)) by {
        if claims(ms, c as usize) {
            let q = choose|q: int|
                0 <= q < ms.len() && (#[trigger] ms[q]).members.contains(c as usize);
            lemma_patterns_from(ir, n, q);
            let other = choose|other: int|
                0 <= other < n && (#[trigger] pattern_at(ir, other)) == Some(ms[q]);
            let e = ms[q].members.index_of(c as usize);
            assert(ms[q].members[e] == c as usize);
            lemma_members_compute(ir, other, e);
        }
    }
    if replaced[c] is Some {
        let f = lemma_fused_at(ir, replaced, c);
    }
    assert(makes_value(in_place(nodes, replaced)[c], name));
    lemma_still_made(in_place(nodes, replaced), dropped_by(ms, nodes.len()), c, name);
}

/// A value of a node that is left stays made.
proof fn lemma_left_makes(ir: GraphIr, replaced: Seq<Option<NodeIr>>, j: int, name: Seq<char>)
    requires
        in_order(ir.nodes@),
        patterns_have_one_output(ir),
        replaced.len() == ir.nodes@.len(),
        replaced_by(patterns(ir, ir.nodes@.len() as int), replaced),
        0 <= j < ir.nodes@.len(),
        !dropped_by(patterns(ir, ir.nodes@.len() as int), ir.nodes@.len())[j],
        makes_value(ir.nodes@[j], name),
    ensures
        made(left(ir, replaced), name),
{
    let ms = patterns(ir, ir.nodes@.len() as int);
    if replaced[j] is Some {
        let f = lemma_fused_at(ir, replaced, j);
        assert(ir.nodes@[j].outputs@.len() == 1);
    }
    lemma_fuse_kept(ir, replaced, j, name);
    lemma_still_made(
        in_place(ir.nodes@, replaced),
        dropped_by(ms, ir.nodes@.len()),
        j,
        name,
    );
}

/// A value of a node that goes is read only in its pattern, and is no output of the graph.
proof fn lemma_gone_makes(ir: GraphIr, j: int, name: Seq<char>, r: int) -> (q: int)
    requires
        in_order(ir.nodes@),
        patterns_have_one_output(ir),
        0 <= j < ir.nodes@.len(),
        0 <= r < ir.nodes@.len(),
        dropped_by(patterns(ir, ir.nodes@.len() as int), ir.nodes@.len())[j],
        makes_value(ir.nodes@[j], name),
    ensures
        !is_output(ir, name),
        0 <= q < patterns(ir, ir.nodes@.len() as int).len(),
        patterns(ir, ir.nodes@.len() as int)[q].members.contains(j as usize),
        reads_value(ir.nodes@[r], name) ==> patterns(
            ir,
            ir.nodes@.len() as int,
        )[q].members.contains(r as usize),
{
    let n = ir.nodes@.len() as int;
    let ms = patterns(ir, n);
    assert(ir.nodes.len() == n);
    assert(claims(ms, j as usize) && !ends_at(ms, j));
    let q = choose|q: int| 0 <= q < ms.len() && (#[trigger] ms[q]).members.contains(j as usize);
    lemma_patterns_from(ir, n, q);
    let other = choose|other: int|
        0 <= other < n && (#[trigger] pattern_at(ir, other)) == Some(ms[q]);
    assert(last_of(ms[q].members) != j);
    assert(ir.nodes@[j].outputs@.len() == 1);
    lemma_inner_value(ir, other, j, name, r);
    q
}

/// A value that a node outside of all patterns reads.
proof fn lemma_read_outside(ir: GraphIr, replaced: Seq<Option<NodeIr>>, i: int, name: Seq<char>)
    requires
        in_order(ir.nodes@),
        patterns_have_one_output(ir),
        replaced.len() == ir.nodes@.len(),
        replaced_by(patterns(ir, ir.nodes@.len() as int), replaced),
        0 <= i < ir.nodes@.len(),
        !dropped_by(patterns(ir, ir.nodes@.len() as int), ir.nodes@.len())[i],
        replaced[i] is None,
        reads_value(ir.nodes@[i], name),
        made(ir.nodes@, name),
    ensures
        made(left(ir, replaced), name),
{
    let nodes = ir.nodes@;
    let n = nodes.len() as int;
    let ms = patterns(ir, n);
    assert(ir.nodes.len() == n);
    let j = choose|j: int| 0 <= j < nodes.len() && makes_value(#[trigger] nodes[j], name);
    if dropped_by(ms, nodes.len())[j] {
        let q = lemma_gone_makes(ir, j, name, i);
        assert(ms[q].members.contains(i as usize));
        assert(claims(ms, i as usize));
        assert(ends_at(ms, i));
    } else {
        lemma_left_makes(ir, replaced, j, name);
    }
}

/// A value that a fused node reads.
proof fn lemma_read_fused(ir: GraphIr, replaced: Seq<Option<NodeIr>>, i: int, name: Seq<char>)
    requires
        in_order(ir.nodes@),
        supplied(ir),
        patterns_have_one_output(ir),
        replaced.len() == ir.nodes@.len(),
        replaced_by(patterns(ir, ir.nodes@.len() as int), replaced),
        0 <= i < ir.nodes@.len(),
        replaced[i] is Some,
        reads_value(replaced[i]->0, name),
    ensures
        made(left(ir, replaced), name) || given(ir, name),
{
    let nodes = ir.nodes@;
    let n = nodes.len() as int;
    let ms = patterns(ir, n);
    assert(ir.nodes.len() == n);
    let (p, root) = lemma_fused_at(ir, replaced, i);
    lemma_pattern(ir, root);
    let m = ms[p];
    let k = texts(replaced[i]->0.inputs@).index_of(name);
    assert(m.inputs[k] == name);
    if k >= 1 {
        lemma_parameters(ir, root, k);
        if !ir.initializers.has(name) {
            lemma_constant_left(ir, replaced, name);
        }
    } else {
        assert(name == nodes[root].input_name(0));
        assert(texts(nodes[root].inputs@)[0] == name);
        assert(reads_value(nodes[root], name));
        assert(has_source(ir, name));
        if made(nodes, name) {
            let j = choose|j: int| 0 <= j < nodes.len() && makes_value(#[trigger] nodes[j], name);
            assert(j < root);
            if dropped_by(ms, nodes.len())[j] {
                let q = lemma_gone_makes(ir, j, name, root);
                assert(m.members[0] == root);
                assert(m.members.contains(m.members[0]));
                if p < q {
                    lemma_patterns_apart(ir, n, p, q, root as usize);
                } else if q < p {
                    lemma_patterns_apart(ir, n, q, p, root as usize);
                }
                let e = m.members.index_of(j as usize);
                assert(m.members[e] == j);
            } else {
                lemma_left_makes(ir, replaced, j, name);
            }
        }
    }
}

/// **Fusing normalizations leaves every value its source**: nobody outside of a pattern reads
/// what is made inside of it, but for its result, which the fused node makes.
pub proof fn law_layernorm_keeps_sources(before: GraphIr, after: GraphIr, r: int)
    requires
        layernorm_fused(before, after, r),
        in_order(before.nodes@),
        supplied(before),
        patterns_have_one_output(before),
    ensures
        supplied(after),
{
    let nodes = before.nodes@;
    let n = nodes.len();
    let ms = patterns(before, n as int);
    let replaced = choose|replaced: Seq<Option<NodeIr>>|
        #![trigger replaced_by(ms, replaced)]
        replaced.len() == n && replaced_by(ms, replaced) && after.nodes@ == rebuilt(
            nodes,
            dropped_by(ms, n),
            replaced,
            n as int,
        );
    let dropped = dropped_by(ms, n);
    let mid = in_place(nodes, replaced);
    lemma_in_place(nodes, dropped, replaced, n as int);
    assert forall|a: int, name: Seq<char>|
        0 <= a < after.nodes@.len() && #[trigger] reads_value(after.nodes@[a], name) implies has_source(
        after,
        name,
    ) by {
        lemma_rebuilt_from(mid, dropped, n as int, a);
        let i = choose|i: int| 0 <= i < n && !dropped[i] && #[trigger] mid[i] == after.nodes@[a];
        assert(reads_value(mid[i], name));
        if replaced[i] is Some {
            lemma_read_fused(before, replaced, i, name);
        } else {
            assert(reads_value(nodes[i], name));
            assert(has_source(before, name));
            if made(nodes, name) {
                lemma_read_outside(before, replaced, i, name);
            }
        }
    }
    assert forall|name: Seq<char>|
        name.len() > 0 && #[trigger] texts(after.outputs@).contains(name) implies has_source(
        after,
        name,
    ) by {
        assert(texts(before.outputs@).contains(name));
        assert(has_source(before, name));
        if made(nodes, name) {
            let j = choose|j: int| 0 <= j < nodes.len() && makes_value(#[trigger] nodes[j], name);
            if dropped[j] {
                let q = lemma_gone_makes(before, j, name, j);
            } else {
                lemma_left_makes(before, replaced, j, name);
            }
        }
    }
}

} // verus!
