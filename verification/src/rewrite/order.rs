//! Rewrites keep the order of the nodes: whoever reads a value stays behind whoever makes it.

use crate::graph::{GraphIr, NodeIr};
use crate::rewrite::fold::{constants_folded, folded_nodes};
use crate::rewrite::layernorm::{
    bias_of, dropped_by, head_of, is_fused, last_of, layernorm_fused, lemma_last_of, pattern_at,
    patterns, quotient_of, replaced_by, root_of, scaling_of,
};
use crate::rewrite::mask::{
    mask_at, masked_nodes, masks_folded, nodes_read, reads_after, substituted, zero_constants,
    zeros_name,
};
use crate::rewrite::prune::{needed, nodes_pruned, prune_rounds};
use crate::rewrite::rearrange::{
    all_rearranged, first_reads, rearrangement_at, rearranges, rearranges_fused, told,
};
use crate::rewrite::slices::{
    axes_name, ends_name, is_slice_for, row_pick, slice_constants, slices_folded, slices_in,
    spread_only, starts_name,
};
use crate::rewrite::{
    consumers_of, lemma_readers, nothing, rebuilt, sole_consumer,
};
use crate::text::texts;
use vstd::prelude::*;

verus! {

/// Whether the node reads the value `name`; the empty name is no value.
pub open spec fn reads_value(node: NodeIr, name: Seq<char>) -> bool {
    name.len() > 0 && texts(node.inputs@).contains(name)
}

/// Whether the node makes the value `name`.
pub open spec fn makes_value(node: NodeIr, name: Seq<char>) -> bool {
    name.len() > 0 && texts(node.outputs@).contains(name)
}

/// Whether every node that reads a value stands behind those that make it.
pub open spec fn in_order(nodes: Seq<NodeIr>) -> bool {
    forall|i: int, j: int, name: Seq<char>|
        0 <= i < nodes.len() && 0 <= j < nodes.len() && #[trigger] reads_value(nodes[i], name)
            && #[trigger] makes_value(nodes[j], name) ==> j < i
}

/// Whether no node makes the value `name`.
pub open spec fn unmade(nodes: Seq<NodeIr>, name: Seq<char>) -> bool {
    forall|j: int| 0 <= j < nodes.len() ==> !makes_value(#[trigger] nodes[j], name)
}

/// Whether a node up to `i` reads the value `name`.
pub open spec fn read_by(nodes: Seq<NodeIr>, i: int, name: Seq<char>) -> bool {
    exists|r: int| 0 <= r <= i && r < nodes.len() && reads_value(#[trigger] nodes[r], name)
}

/// Whether `mid` is `nodes`, place by place, where each makes nothing new and reads only what a
/// node up to it read, or what no node makes.
pub open spec fn follows(nodes: Seq<NodeIr>, mid: Seq<NodeIr>) -> bool {
    &&& mid.len() == nodes.len()
    &&& forall|j: int, name: Seq<char>|
        0 <= j < mid.len() && #[trigger] makes_value(mid[j], name) ==> makes_value(nodes[j], name)
    &&& forall|i: int, name: Seq<char>|
        0 <= i < mid.len() && #[trigger] reads_value(mid[i], name) ==> read_by(nodes, i, name)
            || unmade(nodes, name)
}

proof fn lemma_follows(nodes: Seq<NodeIr>, mid: Seq<NodeIr>)
    requires
        in_order(nodes),
        follows(nodes, mid),
    ensures
        in_order(mid),
{
    assert forall|i: int, j: int, name: Seq<char>|
        0 <= i < mid.len() && 0 <= j < mid.len() && #[trigger] reads_value(mid[i], name)
            && #[trigger] makes_value(mid[j], name) implies j < i by {
        assert(makes_value(nodes[j], name));
        assert(read_by(nodes, i, name));
        let r = choose|r: int|
            0 <= r <= i && r < nodes.len() && reads_value(#[trigger] nodes[r], name);
        assert(j < r);
    }
}

/// The nodes with their replacements in place.
pub open spec fn in_place(nodes: Seq<NodeIr>, replaced: Seq<Option<NodeIr>>) -> Seq<NodeIr> {
    Seq::new(
        nodes.len(),
        |i: int|
            match replaced[i] {
                Some(n) => n,
                None => nodes[i],
            },
    )
}

pub proof fn lemma_in_place(
    nodes: Seq<NodeIr>,
    dropped: Seq<bool>,
    replaced: Seq<Option<NodeIr>>,
    k: int,
)
    requires
        0 <= k <= nodes.len(),
    ensures
        rebuilt(nodes, dropped, replaced, k) == rebuilt(
            in_place(nodes, replaced),
            dropped,
            nothing(nodes.len()),
            k,
        ),
    decreases k,
{
    if k > 0 {
        lemma_in_place(nodes, dropped, replaced, k - 1);
    }
}

pub proof fn lemma_rebuilt_from(nodes: Seq<NodeIr>, dropped: Seq<bool>, k: int, a: int)
    requires
        0 <= k <= nodes.len(),
        0 <= a < rebuilt(nodes, dropped, nothing(nodes.len()), k).len(),
    ensures
        exists|i: int|
            0 <= i < k && !dropped[i] && #[trigger] nodes[i] == rebuilt(
                nodes,
                dropped,
                nothing(nodes.len()),
                k,
            )[a],
    decreases k,
{
    if k > 0 {
        let rest = rebuilt(nodes, dropped, nothing(nodes.len()), k - 1);
        if a < rest.len() {
            lemma_rebuilt_from(nodes, dropped, k - 1, a);
        } else {
            assert(nodes[k - 1] == rebuilt(nodes, dropped, nothing(nodes.len()), k)[a]);
        }
    }
}

proof fn lemma_rebuilt_order(nodes: Seq<NodeIr>, dropped: Seq<bool>, k: int)
    requires
        in_order(nodes),
        0 <= k <= nodes.len(),
    ensures
        in_order(rebuilt(nodes, dropped, nothing(nodes.len()), k)),
    decreases k,
{
    if k > 0 {
        lemma_rebuilt_order(nodes, dropped, k - 1);
        let rest = rebuilt(nodes, dropped, nothing(nodes.len()), k - 1);
        let all = rebuilt(nodes, dropped, nothing(nodes.len()), k);
        if !dropped[k - 1] {
            let x = nodes[k - 1];
            assert(all == rest.push(x));
            assert forall|i: int, j: int, name: Seq<char>|
                0 <= i < all.len() && 0 <= j < all.len() && #[trigger] reads_value(all[i], name)
                    && #[trigger] makes_value(all[j], name) implies j < i by {
                if j == rest.len() {
                    if i == rest.len() {
                        assert(reads_value(nodes[k - 1], name) && makes_value(nodes[k - 1], name));
                    } else {
                        lemma_rebuilt_from(nodes, dropped, k - 1, i);
                        let r = choose|r: int| 0 <= r < k - 1 && #[trigger] nodes[r] == rest[i];
                        assert(reads_value(nodes[r], name) && makes_value(nodes[k - 1], name));
                    }
                } else if i < rest.len() {
                    assert(all[i] == rest[i] && all[j] == rest[j]);
                }
            }
        }
    }
}

/// **Folding constants keeps the order.**
pub proof fn law_fold_keeps_order(before: GraphIr, after: GraphIr, r: int)
    requires
        constants_folded(before, after, r),
        in_order(before.nodes@),
    ensures
        in_order(after.nodes@),
{
    lemma_rebuilt_order(before.nodes@, folded_nodes(before), before.nodes@.len() as int);
}

// --- fused normalizations ---------------------------------------------------------------

proof fn lemma_next(ir: GraphIr, a: int, b: usize)
    requires
        in_order(ir.nodes@),
        0 <= a < ir.nodes@.len(),
        consumers_of(ir, ir.nodes@[a].output_name(0)).contains(b),
    ensures
        a < b < ir.nodes@.len(),
{
    let name = ir.nodes@[a].output_name(0);
    assert(ir.nodes.len() == ir.nodes@.len());
    lemma_readers(ir.nodes@, name, ir.nodes@.len() as int);
    let c = consumers_of(ir, name);
    let k = c.index_of(b);
    assert(c[k] == b);
    assert(name.len() > 0);
    assert(texts(ir.nodes@[a].outputs@)[0] == name);
    assert(makes_value(ir.nodes@[a], name));
    assert(reads_value(ir.nodes@[b as int], name));
}

proof fn lemma_sole(ir: GraphIr, a: int)
    requires
        in_order(ir.nodes@),
        0 <= a < ir.nodes@.len(),
        sole_consumer(ir, ir.nodes@[a].output_name(0)) is Some,
    ensures
        a < sole_consumer(ir, ir.nodes@[a].output_name(0))->0 < ir.nodes@.len(),
{
    let c = consumers_of(ir, ir.nodes@[a].output_name(0));
    assert(c.contains(c[0]));
    lemma_next(ir, a, c[0]);
}

/// The last node of a pattern makes what the pattern makes, and nodes up to it read what the
/// fused node reads.
pub proof fn lemma_pattern(ir: GraphIr, root: int)
    requires
        in_order(ir.nodes@),
        0 <= root < ir.nodes@.len(),
        pattern_at(ir, root) is Some,
    ensures
        ({
            let m = pattern_at(ir, root)->0;
            let last = last_of(m.members) as int;
            &&& last < ir.nodes@.len()
            &&& m.output == ir.nodes@[last].output_name(0)
            &&& m.members.last() == last
            &&& forall|k: int|
                0 <= k < m.members.len() ==> root <= (#[trigger] m.members[k]) < ir.nodes@.len()
            &&& forall|k: int|
                0 <= k < m.inputs.len() && (#[trigger] m.inputs[k]).len() > 0 ==> read_by(
                    ir.nodes@,
                    last,
                    m.inputs[k],
                )
        }),
{
    let nodes = ir.nodes@;
    let m = pattern_at(ir, root)->0;
    let s = m.members;
    let h = head_of(ir, root)->0;
    lemma_sole(ir, root);
    assert(ir.nodes.len() == nodes.len());
    let dev = nodes[h.sub as int].output_name(0);
    let readers = consumers_of(ir, dev);
    assert(readers.contains(h.pow)) by {
        assert(readers.contains(readers[0]) && readers.contains(readers[1]));
    }
    lemma_next(ir, h.sub as int, h.pow);
    let q = root_of(ir, h.pow as int)->0;
    lemma_sole(ir, h.pow as int);
    lemma_sole(ir, q.var as int);
    lemma_sole(ir, q.eps as int);
    let div = quotient_of(ir, h.sub as int, q.sqrt as int)->0;
    lemma_sole(ir, q.sqrt as int);
    let (mul, scale) = scaling_of(ir, div as int)->0;
    lemma_sole(ir, div as int);
    lemma_last_of(s);
    let last = last_of(s) as int;
    let x = nodes[root].input_name(0);
    assert(s[0] == root && s[1] == h.sub && s[2] == h.pow && s[3] == q.var && s[4] == q.eps && s[5]
        == q.sqrt && s[6] == div && s[7] == mul);
    assert(texts(nodes[root].inputs@)[0] == x);
    let t = nodes[mul as int];
    assert(texts(t.inputs@)[0] == t.inputs@[0]@ && texts(t.inputs@)[1] == t.inputs@[1]@);
    assert(texts(t.inputs@).contains(scale));
    if x.len() > 0 {
        assert(reads_value(nodes[root], x));
    }
    if scale.len() > 0 {
        assert(reads_value(nodes[mul as int], scale));
    }
    match bias_of(ir, mul as int, scale) {
        None => {
            let k = s.index_of(last_of(s));
            assert(s[k] == last);
            assert(last == mul);
        },
        Some((add, bias)) => {
            lemma_sole(ir, mul as int);
            assert(s[8] == add);
            let k = s.index_of(last_of(s));
            assert(s[k] == last);
            assert(last == add);
            let u = nodes[add as int];
            assert(texts(u.inputs@)[0] == u.inputs@[0]@ && texts(u.inputs@)[1] == u.inputs@[1]@);
            assert(texts(u.inputs@).contains(bias));
            if bias.len() > 0 {
                assert(reads_value(nodes[add as int], bias));
            }
        },
    }
    assert forall|k: int| 0 <= k < m.inputs.len() && (#[trigger] m.inputs[k]).len() > 0 implies read_by(
        nodes,
        last,
        m.inputs[k],
    ) by {
        if k == 0 {
            assert(m.inputs[k] == x);
        } else if k == 1 {
            assert(m.inputs[k] == scale);
        }
    }
}

pub proof fn lemma_patterns_from(ir: GraphIr, k: int, j: int)
    requires
        0 <= k,
        0 <= j < patterns(ir, k).len(),
    ensures
        exists|root: int|
            0 <= root < k && (#[trigger] pattern_at(ir, root)) == Some(patterns(ir, k)[j]),
    decreases k,
{
    if k > 0 {
        let rest = patterns(ir, k - 1);
        if j < rest.len() {
            lemma_patterns_from(ir, k - 1, j);
        } else {
            assert(pattern_at(ir, k - 1) == Some(patterns(ir, k)[j]));
        }
    }
}

/// **Fusing normalizations keeps the order**: the fused node takes the place of the last node of
/// its pattern, and everything that it reads was read before.
pub proof fn law_layernorm_keeps_order(before: GraphIr, after: GraphIr, r: int)
    requires
        layernorm_fused(before, after, r),
        in_order(before.nodes@),
    ensures
        in_order(after.nodes@),
{
    let nodes = before.nodes@;
    let n = nodes.len();
    let ms = patterns(before, n as int);
    let replaced = choose|replaced: Seq<Option<NodeIr>>|
        #![trigger replaced_by(ms, replaced)]
        replaced.len() == n && replaced_by(ms, replaced) && after.nodes@ == rebuilt(
            nodes,
            dropped_by(ms, n),
            replaced,
            n as int,
        );
    let mid = in_place(nodes, replaced);
    assert forall|i: int| 0 <= i < n && (#[trigger] replaced[i]) is Some implies {
        let x = replaced[i]->0;
        &&& forall|name: Seq<char>| #[trigger] makes_value(x, name) ==> makes_value(nodes[i], name)
        &&& forall|name: Seq<char>| #[trigger] reads_value(x, name) ==> read_by(nodes, i, name)
    } by {
        let x = replaced[i]->0;
        let j = choose|j: int|
            0 <= j < ms.len() && last_of((#[trigger] ms[j]).members) == i && is_fused(x, ms[j]);
        lemma_patterns_from(before, n as int, j);
        let root = choose|root: int|
            0 <= root < n && (#[trigger] pattern_at(before, root)) == Some(ms[j]);
        lemma_pattern(before, root);
        assert forall|name: Seq<char>| #[trigger] makes_value(x, name) implies makes_value(
            nodes[i],
            name,
        ) by {
            assert(name == ms[j].output);
            assert(texts(nodes[i].outputs@)[0] == name);
        }
        assert forall|name: Seq<char>| #[trigger] reads_value(x, name) implies read_by(
            nodes,
            i,
            name,
        ) by {
            let k = ms[j].inputs.index_of(name);
            assert(ms[j].inputs[k] == name);
        }
    }
    assert forall|i: int, name: Seq<char>|
        0 <= i < n && #[trigger] reads_value(mid[i], name) implies read_by(nodes, i, name) by {
        if replaced[i] is None {
            assert(reads_value(nodes[i], name));
        }
    }
    lemma_follows(nodes, mid);
    lemma_in_place(nodes, dropped_by(ms, n), replaced, n as int);
    lemma_rebuilt_order(mid, dropped_by(ms, n), n as int);
}

// --- what is dropped --------------------------------------------------------------------

pub proof fn lemma_needed_from(all: Seq<NodeIr>, outputs: Seq<String>, k: int, a: int)
    requires
        0 <= k <= all.len(),
        0 <= a < needed(all, outputs, k).len(),
    ensures
        exists|i: int| 0 <= i < k && #[trigger] all[i] == needed(all, outputs, k)[a],
    decreases k,
{
    if k > 0 {
        let rest = needed(all, outputs, k - 1);
        if a < rest.len() {
            lemma_needed_from(all, outputs, k - 1, a);
        } else {
            assert(all[k - 1] == needed(all, outputs, k)[a]);
        }
    }
}

proof fn lemma_needed_order(all: Seq<NodeIr>, outputs: Seq<String>, k: int)
    requires
        in_order(all),
        0 <= k <= all.len(),
    ensures
        in_order(needed(all, outputs, k)),
    decreases k,
{
    if k > 0 {
        lemma_needed_order(all, outputs, k - 1);
        let rest = needed(all, outputs, k - 1);
        let now = needed(all, outputs, k);
        if now.len() > rest.len() {
            assert forall|i: int, j: int, name: Seq<char>|
                0 <= i < now.len() && 0 <= j < now.len() && #[trigger] reads_value(now[i], name)
                    && #[trigger] makes_value(now[j], name) implies j < i by {
                if j == rest.len() {
                    if i == rest.len() {
                        assert(reads_value(all[k - 1], name) && makes_value(all[k - 1], name));
                    } else {
                        lemma_needed_from(all, outputs, k - 1, i);
                        let r = choose|r: int| 0 <= r < k - 1 && #[trigger] all[r] == rest[i];
                        assert(reads_value(all[r], name) && makes_value(all[k - 1], name));
                    }
                } else if i < rest.len() {
                    assert(now[i] == rest[i] && now[j] == rest[j]);
                }
            }
        }
    }
}

proof fn lemma_rounds_order(nodes: Seq<NodeIr>, outputs: Seq<String>, k: nat)
    requires
        in_order(nodes),
    ensures
        in_order(prune_rounds(nodes, outputs, k)),
    decreases k,
{
    if k > 0 {
        let rest = prune_rounds(nodes, outputs, (k - 1) as nat);
        lemma_rounds_order(nodes, outputs, (k - 1) as nat);
        lemma_needed_order(rest, outputs, rest.len() as int);
    }
}

/// **Dropping what nothing needs keeps the order.**
pub proof fn law_prune_keeps_order(before: GraphIr, after: GraphIr, r: int)
    requires
        nodes_pruned(before, after, r),
        in_order(before.nodes@),
    ensures
        in_order(after.nodes@),
{
    let k = choose|k: nat|
        after.nodes@ == #[trigger] prune_rounds(before.nodes@, before.outputs@, k);
    lemma_rounds_order(before.nodes@, before.outputs@, k);
}

// --- slices -----------------------------------------------------------------------------

/// Whether no node makes a value that has the name of one of these constants.
pub open spec fn fresh<V>(nodes: Seq<NodeIr>, added: Map<Seq<char>, V>) -> bool {
    forall|name: Seq<char>| #[trigger] added.contains_key(name) ==> unmade(nodes, name)
}

pub proof fn lemma_slice_names(ir: GraphIr, k: int, i: int)
    requires
        0 <= i < k,
        row_pick(ir, i) is Some,
    ensures
        slice_constants(ir, k).contains_key(starts_name(ir.nodes@[i].output_name(0))),
        slice_constants(ir, k).contains_key(ends_name(ir.nodes@[i].output_name(0))),
        slice_constants(ir, k).contains_key(axes_name(ir.nodes@[i].output_name(0))),
    decreases k,
{
    if i < k - 1 {
        lemma_slice_names(ir, k - 1, i);
    }
}

/// **Folding row selections keeps the order**, where the names of the new constants are fresh.
pub proof fn law_slices_keep_order(before: GraphIr, after: GraphIr, r: int)
    requires
        slices_folded(before, after, r),
        in_order(before.nodes@),
        fresh(before.nodes@, slice_constants(before, before.nodes@.len() as int)),
    ensures
        in_order(after.nodes@),
{
    let nodes = before.nodes@;
    let n = nodes.len() as int;
    let replaced = choose|replaced: Seq<Option<NodeIr>>|
        replaced.len() == n && #[trigger] slices_in(before, replaced, n) && after.nodes@ == rebuilt(
            nodes,
            spread_only(before, n),
            replaced,
            n,
        );
    let mid = in_place(nodes, replaced);
    assert forall|i: int, name: Seq<char>|
        0 <= i < n && #[trigger] makes_value(mid[i], name) implies makes_value(nodes[i], name) by {
        if replaced[i] is Some {
            assert(is_slice_for(mid[i], nodes[i]));
            assert(name == nodes[i].output_name(0));
            assert(texts(nodes[i].outputs@)[0] == name);
        }
    }
    assert forall|i: int, name: Seq<char>|
        0 <= i < n && #[trigger] reads_value(mid[i], name) implies read_by(nodes, i, name)
        || unmade(nodes, name) by {
        if replaced[i] is Some {
            assert(is_slice_for(mid[i], nodes[i]));
            lemma_slice_names(before, n, i);
            let all = texts(mid[i].inputs@);
            let k = all.index_of(name);
            assert(all[k] == name);
            if k == 0 {
                assert(texts(nodes[i].inputs@)[0] == name);
                assert(reads_value(nodes[i], name));
            }
        } else {
            assert(reads_value(nodes[i], name));
        }
    }
    lemma_follows(nodes, mid);
    lemma_in_place(nodes, spread_only(before, n), replaced, n);
    lemma_rebuilt_order(mid, spread_only(before, n), n);
}

// --- rearrangements ---------------------------------------------------------------------

proof fn lemma_first_reads(ir: GraphIr, k: int, i: int)
    requires
        in_order(ir.nodes@),
        0 <= k <= ir.nodes@.len(),
        0 <= i < ir.nodes@.len(),
    ensures
        first_reads(ir, k).len() == ir.nodes@.len(),
        first_reads(ir, k)[i].len() > 0 ==> read_by(ir.nodes@, i, first_reads(ir, k)[i]),
    decreases k,
{
    if k > 0 {
        lemma_first_reads(ir, k - 1, i);
        match rearrangement_at(ir, k - 1) {
            Some(m) => {
                lemma_sole(ir, k - 1);
                if m.reshape == i {
                    let name = ir.nodes@[k - 1].input_name(0);
                    if name.len() > 0 {
                        assert(texts(ir.nodes@[k - 1].inputs@)[0] == name);
                        assert(reads_value(ir.nodes@[k - 1], name));
                    }
                }
            },
            None => {},
        }
    } else {
        let name = ir.nodes@[i].input_name(0);
        if name.len() > 0 {
            assert(texts(ir.nodes@[i].inputs@)[0] == name);
            assert(reads_value(ir.nodes@[i], name));
        }
    }
}

/// **Leaving rearrangements to attention keeps the order.**
pub proof fn law_rearrange_keeps_order(before: GraphIr, after: GraphIr, r: int)
    requires
        rearranges_fused(before, after, r),
        in_order(before.nodes@),
    ensures
        in_order(after.nodes@),
{
    let nodes = before.nodes@;
    let n = nodes.len() as int;
    let mid = choose|mid: Seq<NodeIr>|
        #[trigger] all_rearranged(mid, nodes, first_reads(before, n), told(before, n))
            && after.nodes@ == rebuilt(mid, rearranges(before), nothing(nodes.len()), n);
    assert forall|i: int, name: Seq<char>|
        0 <= i < n && #[trigger] reads_value(mid[i], name) implies read_by(nodes, i, name) by {
        let all = texts(mid[i].inputs@);
        let k = all.index_of(name);
        assert(all[k] == name);
        lemma_first_reads(before, n, i);
        if k > 0 {
            assert(mid[i].inputs@[k] == nodes[i].inputs@[k]);
            assert(texts(nodes[i].inputs@)[k] == name);
            assert(reads_value(nodes[i], name));
        }
    }
    lemma_follows(nodes, mid);
    lemma_rebuilt_order(mid, rearranges(before), n);
}

// --- masks ------------------------------------------------------------------------------

/// Whether there are as many names as the nodes have inputs.
pub open spec fn shaped(nodes: Seq<NodeIr>, reads: Seq<Seq<Seq<char>>>) -> bool {
    reads.len() == nodes.len() && forall|i: int|
        0 <= i < nodes.len() ==> (#[trigger] reads[i]).len() == nodes[i].inputs@.len()
}

/// Whether a name that node `i` reads after the masks is one that was read before, or one of
/// the new constants.
pub open spec fn accounted<V>(
    nodes: Seq<NodeIr>,
    reads: Seq<Seq<Seq<char>>>,
    added: Map<Seq<char>, V>,
) -> bool {
    forall|i: int, name: Seq<char>|
        0 <= i < nodes.len() && name.len() > 0 && #[trigger] reads[i].contains(name) ==> read_by(
            nodes,
            i,
            name,
        ) || added.contains_key(name)
}

proof fn lemma_substituted<V>(
    ir: GraphIr,
    reads: Seq<Seq<Seq<char>>>,
    a: int,
    instead: Seq<char>,
    added: Map<Seq<char>, V>,
)
    requires
        in_order(ir.nodes@),
        fresh(ir.nodes@, added),
        0 <= a < ir.nodes@.len(),
        ir.nodes@[a].outputs@.len() > 0,
        ir.nodes@[a].output_name(0).len() > 0,
        shaped(ir.nodes@, reads),
        accounted(ir.nodes@, reads, added),
        instead.len() > 0 ==> read_by(ir.nodes@, a, instead) || added.contains_key(instead),
    ensures
        shaped(ir.nodes@, substituted(reads, ir.nodes@[a].output_name(0), instead)),
        accounted(
            ir.nodes@,
            substituted(reads, ir.nodes@[a].output_name(0), instead),
            added,
        ),
{
    let name = ir.nodes@[a].output_name(0);
    let all = substituted(reads, name, instead);
    assert(texts(ir.nodes@[a].outputs@)[0] == name);
    assert(makes_value(ir.nodes@[a], name));
    assert(!added.contains_key(name));
    assert forall|i: int| 0 <= i < ir.nodes@.len() implies (#[trigger] all[i]).len()
        == ir.nodes@[i].inputs@.len() by {
        assert(reads[i].len() == ir.nodes@[i].inputs@.len());
    }
    assert forall|i: int, q: Seq<char>|
        0 <= i < ir.nodes@.len() && q.len() > 0 && #[trigger] all[i].contains(q) implies read_by(
        ir.nodes@,
        i,
        q,
    ) || added.contains_key(q) by {
        let k = all[i].index_of(q);
        assert(all[i][k] == q);
        if reads[i][k] == q {
            assert(reads[i].contains(q));
        } else {
            assert(reads[i][k] == name);
            assert(reads[i].contains(name));
            assert(read_by(ir.nodes@, i, name));
            let s = choose|s: int|
                0 <= s <= i && s < ir.nodes@.len() && reads_value(#[trigger] ir.nodes@[s], name);
            assert(a < s);
            if read_by(ir.nodes@, a, instead) {
                let t = choose|t: int|
                    0 <= t <= a && t < ir.nodes@.len() && reads_value(
                        #[trigger] ir.nodes@[t],
                        instead,
                    );
                assert(reads_value(ir.nodes@[t], q));
            }
        }
    }
}

/// The zeros that a mask leaves behind are among those of all masks.
pub proof fn lemma_zero_added(ir: GraphIr, j: int, k: int)
    requires
        0 <= j < k,
        mask_at(ir, j) is Some,
        mask_at(ir, j)->0.width is Some,
    ensures
        zero_constants(ir, k).contains_key(zeros_name(ir.nodes@[j].output_name(0))),
    decreases k,
{
    if j < k - 1 {
        lemma_zero_added(ir, j, k - 1);
    }
}

/// What a mask replaces is read by the product itself, or is one of the new constants.
pub proof fn lemma_reads_after(ir: GraphIr, k: int)
    requires
        in_order(ir.nodes@),
        fresh(ir.nodes@, zero_constants(ir, ir.nodes@.len() as int)),
        0 <= k <= ir.nodes@.len(),
    ensures
        shaped(ir.nodes@, reads_after(ir, k)),
        accounted(ir.nodes@, reads_after(ir, k), zero_constants(ir, ir.nodes@.len() as int)),
    decreases k,
{
    let nodes = ir.nodes@;
    let added = zero_constants(ir, nodes.len() as int);
    if k > 0 {
        lemma_reads_after(ir, k - 1);
        match mask_at(ir, k - 1) {
            Some(m) => {
                let rest = reads_after(ir, k - 1);
                let masked = nodes[k - 1].output_name(0);
                if m.width is Some {
                    lemma_zero_added(ir, k - 1, nodes.len() as int);
                    lemma_substituted(ir, rest, k - 1, zeros_name(masked), added);
                } else {
                    let instead = rest[k - 1][m.operand];
                    assert(rest[k - 1].len() == nodes[k - 1].inputs@.len());
                    assert(rest[k - 1].contains(instead));
                    lemma_substituted(ir, rest, k - 1, instead, added);
                }
            },
            None => {},
        }
    } else {
        assert forall|i: int, name: Seq<char>|
            0 <= i < nodes.len() && name.len() > 0 && #[trigger] reads_after(ir, 0)[i].contains(
                name,
            ) implies read_by(nodes, i, name) by {
            assert(reads_value(nodes[i], name));
        }
    }
}

/// **Folding masks keeps the order**, where the names of the new constants are fresh.
pub proof fn law_masks_keep_order(before: GraphIr, after: GraphIr, r: int)
    requires
        masks_folded(before, after, r),
        in_order(before.nodes@),
        fresh(before.nodes@, zero_constants(before, before.nodes@.len() as int)),
    ensures
        in_order(after.nodes@),
{
    let nodes = before.nodes@;
    let n = nodes.len() as int;
    let mid = choose|mid: Seq<NodeIr>|
        #[trigger] nodes_read(mid, nodes, reads_after(before, n)) && after.nodes@ == rebuilt(
            mid,
            masked_nodes(before, n),
            nothing(nodes.len()),
            n,
        );
    lemma_reads_after(before, n);
    assert forall|i: int, name: Seq<char>|
        0 <= i < n && #[trigger] reads_value(mid[i], name) implies read_by(nodes, i, name)
        || unmade(nodes, name) by {
        assert(reads_after(before, n)[i].contains(name));
    }
    lemma_follows(nodes, mid);
    lemma_rebuilt_order(mid, masked_nodes(before, n), n);
}

} // verus!
