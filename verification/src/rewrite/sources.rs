//! The optional rewrites leave no value without a source either.

use crate::fusion::lemma_producer_bound;
use crate::graph::{tensor_under, GraphIr, NodeIr};
use crate::rewrite::mask::{
    mask_at, masked_nodes, masks_folded, nodes_read, reads_after, substituted, zero_constants,
    zeros_name,
};
use crate::rewrite::order::{
    fresh, in_order, in_place, lemma_in_place, lemma_reads_after, lemma_rebuilt_from,
    lemma_slice_names, lemma_zero_added, makes_value, read_by, reads_value, unmade,
};
use crate::rewrite::rearrange::{
    all_rearranged, first_reads, rearranged, rearrangement_at, rearranges, rearranges_fused, told,
};
use crate::rewrite::slices::{
    axes_name, ends_name, is_slice_for, row_pick, slice_constants, slices_folded, slices_in,
    spread_only, starts_name,
};
use crate::rewrite::supply::{given, has_source, lemma_constant_made, lemma_still_made, made, supplied};
use crate::rewrite::{
    const_of, consumers_of, escapes, is_output, lemma_readers, nothing, output_lists, producer_in,
    rebuilt, sole_consumer,
};
use crate::text::texts;
use vstd::prelude::*;

verus! {

/// Whoever has the value as an input is the sole consumer.
proof fn lemma_sole_reader(ir: GraphIr, name: Seq<char>, y: usize, i: int)
    requires
        sole_consumer(ir, name) == Some(y),
        0 <= i < ir.nodes@.len(),
        name.len() > 0,
        texts(ir.nodes@[i].inputs@).contains(name),
    ensures
        i == y,
        !is_output(ir, name),
{
    assert(ir.nodes.len() == ir.nodes@.len());
    lemma_readers(ir.nodes@, name, ir.nodes@.len() as int);
    let c = consumers_of(ir, name);
    assert(c.contains(i as usize));
    let k = c.index_of(i as usize);
    assert(c[k] == i);
}

proof fn lemma_sole_bound(ir: GraphIr, name: Seq<char>)
    requires
        sole_consumer(ir, name) is Some,
    ensures
        sole_consumer(ir, name)->0 < ir.nodes@.len(),
{
    assert(ir.nodes.len() == ir.nodes@.len());
    lemma_readers(ir.nodes@, name, ir.nodes@.len() as int);
    let c = consumers_of(ir, name);
    assert(c[0] < ir.nodes@.len());
}

/// The producer of a value makes it.
proof fn lemma_producer_makes(ir: GraphIr, name: Seq<char>)
    requires
        producer_in(ir, name) is Some,
    ensures
        producer_in(ir, name)->0 < ir.nodes@.len(),
        makes_value(ir.nodes@[producer_in(ir, name)->0 as int], name),
{
    assert(ir.nodes.len() == ir.nodes@.len());
    lemma_producer_bound(output_lists(ir.nodes@), name);
}

/// A node with one output makes no other value.
proof fn lemma_one_output(node: NodeIr, name: Seq<char>)
    requires
        node.outputs@.len() == 1,
        makes_value(node, name),
    ensures
        name == node.output_name(0),
{
    let k = texts(node.outputs@).index_of(name);
    assert(texts(node.outputs@)[k] == name);
}

// --- rearrangements ---------------------------------------------------------------------

/// What a node reads first: what it read, or what a rearrangement in front of it read.
proof fn lemma_first_from(ir: GraphIr, k: int, i: int) -> (t: int)
    requires
        0 <= k <= ir.nodes@.len(),
        0 <= i < ir.nodes@.len(),
    ensures
        first_reads(ir, k).len() == ir.nodes@.len(),
        if t < 0 {
            first_reads(ir, k)[i] == ir.nodes@[i].input_name(0) && forall|s: int|
                0 <= s < k ==> !((#[trigger] rearrangement_at(ir, s)) matches Some(m) && m.reshape
                    == i)
        } else {
            t < k && rearrangement_at(ir, t) is Some && first_reads(ir, k)[i]
                == ir.nodes@[t].input_name(0)
        },
    decreases k,
{
    if k <= 0 {
        -1
    } else {
        let t = lemma_first_from(ir, k - 1, i);
        match rearrangement_at(ir, k - 1) {
            Some(m) => {
                lemma_sole_bound(ir, ir.nodes@[k - 1].output_name(0));
                if m.reshape == i {
                    k - 1
                } else {
                    t
                }
            },
            None => t,
        }
    }
}

/// A value that the graph still needs, and that had a source, has one.
proof fn lemma_rearranged_source(
    before: GraphIr,
    mid: Seq<NodeIr>,
    name: Seq<char>,
    i: int,
)
    requires
        all_rearranged(
            mid,
            before.nodes@,
            first_reads(before, before.nodes@.len() as int),
            told(before, before.nodes@.len() as int),
        ),
        supplied(before),
        0 <= i < mid.len(),
        !rearranges(before)[i],
        reads_value(mid[i], name),
    ensures
        made(
            rebuilt(mid, rearranges(before), nothing(mid.len()), mid.len() as int),
            name,
        ) || given(before, name),
{
    let nodes = before.nodes@;
    let n = nodes.len() as int;
    let firsts = first_reads(before, n);
    assert(rearranged(mid[i], nodes[i], firsts[i], told(before, n)[i]));
    let q = texts(mid[i].inputs@).index_of(name);
    assert(texts(mid[i].inputs@)[q] == name);
    let t = lemma_first_from(before, n, i);
    if q == 0 && t >= 0 {
        lemma_producer_makes(before, name);
        let p = producer_in(before, name)->0 as int;
        lemma_reshape_is_no_transpose();
        assert(!rearranges(before)[p]);
        assert(rearranged(mid[p], nodes[p], firsts[p], told(before, n)[p]));
        assert(makes_value(mid[p], name));
        lemma_still_made(mid, rearranges(before), p, name);
    } else {
        assert(texts(nodes[i].inputs@)[q] == name) by {
            if q > 0 {
                assert(mid[i].inputs@[q] == nodes[i].inputs@[q]);
            }
        }
        assert(reads_value(nodes[i], name));
        assert(has_source(before, name));
        if !given(before, name) {
            let j = choose|j: int| 0 <= j < nodes.len() && makes_value(#[trigger] nodes[j], name);
            assert(rearranged(mid[j], nodes[j], firsts[j], told(before, n)[j]));
            if rearranges(before)[j] {
                let m = rearrangement_at(before, j)->0;
                lemma_one_output(nodes[j], name);
                lemma_sole_reader(before, name, m.reshape, i);
                // only the shape of the `Reshape` can have that name, and it is constant
                assert(q == 1);
                assert(const_of(before, name) is Some);
                lemma_constant_made(nodes, name);
                let c = choose|c: int|
                    0 <= c < nodes.len() && (#[trigger] nodes[c]).op@ == "Constant"@
                        && nodes[c].outputs@.len() > 0 && nodes[c].outputs@[0]@ == name;
                lemma_reshape_is_no_transpose();
                assert(!rearranges(before)[c]);
                assert(rearranged(mid[c], nodes[c], firsts[c], told(before, n)[c]));
                assert(texts(mid[c].outputs@)[0] == name);
                assert(makes_value(mid[c], name));
                lemma_still_made(mid, rearranges(before), c, name);
            } else {
                assert(makes_value(mid[j], name));
                lemma_still_made(mid, rearranges(before), j, name);
            }
        }
    }
}

proof fn lemma_reshape_is_no_transpose()
    ensures
        "Reshape"@ != "Transpose"@,
        "Constant"@ != "Transpose"@,
{
    reveal_strlit("Reshape");
    reveal_strlit("Transpose");
    reveal_strlit("Constant");
    assert("Reshape"@.len() == 7 && "Constant"@.len() == 8 && "Transpose"@.len() == 9);
}

/// **Dropping rearrangements leaves every value its source**: whoever read what a rearrangement
/// made reads what it read.
pub proof fn law_rearrange_keeps_sources(before: GraphIr, after: GraphIr, r: int)
    requires
        rearranges_fused(before, after, r),
        supplied(before),
    ensures
        supplied(after),
{
    let nodes = before.nodes@;
    let n = nodes.len() as int;
    let dropped = rearranges(before);
    let mid = choose|mid: Seq<NodeIr>|
        #[trigger] all_rearranged(mid, nodes, first_reads(before, n), told(before, n))
            && after.nodes@ == rebuilt(mid, dropped, nothing(nodes.len()), n);
    assert forall|a: int, name: Seq<char>|
        0 <= a < after.nodes@.len() && #[trigger] reads_value(after.nodes@[a], name) implies has_source(
        after,
        name,
    ) by {
        lemma_rebuilt_from(mid, dropped, n, a);
        let i = choose|i: int| 0 <= i < n && !dropped[i] && #[trigger] mid[i] == after.nodes@[a];
        lemma_rearranged_source(before, mid, name, i);
    }
    assert forall|name: Seq<char>|
        name.len() > 0 && #[trigger] texts(after.outputs@).contains(name) implies has_source(
        after,
        name,
    ) by {
        assert(texts(before.outputs@).contains(name));
        assert(has_source(before, name));
        if !given(before, name) {
            let j = choose|j: int| 0 <= j < nodes.len() && makes_value(#[trigger] nodes[j], name);
            assert(rearranged(mid[j], nodes[j], first_reads(before, n)[j], told(before, n)[j]));
            if dropped[j] {
                lemma_one_output(nodes[j], name);
                assert(!escapes(before, name));
            }
            assert(makes_value(mid[j], name));
            lemma_still_made(mid, dropped, j, name);
        }
    }
}

// --- row selections ---------------------------------------------------------------------

proof fn lemma_spread_len(ir: GraphIr, k: int)
    requires
        0 <= k <= ir.nodes@.len(),
    ensures
        spread_only(ir, k).len() == ir.nodes@.len(),
    decreases k,
{
    if k > 0 {
        lemma_spread_len(ir, k - 1);
        if row_pick(ir, k - 1) is Some {
            lemma_producer_makes(ir, ir.nodes@[k - 1].input_name(1));
        }
    }
}

proof fn lemma_spread_by(ir: GraphIr, k: int, j: int) -> (i: int)
    requires
        0 <= k <= ir.nodes@.len(),
        0 <= j < ir.nodes@.len(),
        spread_only(ir, k)[j],
    ensures
        0 <= i < k,
        row_pick(ir, i) is Some,
        row_pick(ir, i)->0.expand == j,
    decreases k,
{
    if k <= 0 {
        0
    } else {
        lemma_spread_len(ir, k - 1);
        if row_pick(ir, k - 1) is Some {
            lemma_producer_makes(ir, ir.nodes@[k - 1].input_name(1));
        }
        match row_pick(ir, k - 1) {
            Some(p) => if p.expand == j {
                k - 1
            } else {
                lemma_spread_by(ir, k - 1, j)
            },
            None => lemma_spread_by(ir, k - 1, j),
        }
    }
}

/// Whether `replaced` are the slices of all row selections.
spec fn all_slices(ir: GraphIr, replaced: Seq<Option<NodeIr>>) -> bool {
    replaced.len() == ir.nodes@.len() && slices_in(ir, replaced, ir.nodes@.len() as int)
}

proof fn lemma_slices_make(ir: GraphIr, replaced: Seq<Option<NodeIr>>, j: int, name: Seq<char>)
    requires
        all_slices(ir, replaced),
        0 <= j < ir.nodes@.len(),
        !spread_only(ir, ir.nodes@.len() as int)[j],
        makes_value(ir.nodes@[j], name),
    ensures
        made(
            rebuilt(
                in_place(ir.nodes@, replaced),
                spread_only(ir, ir.nodes@.len() as int),
                nothing(ir.nodes@.len()),
                ir.nodes@.len() as int,
            ),
            name,
        ),
{
    let nodes = ir.nodes@;
    let mid = in_place(nodes, replaced);
    if replaced[j] is Some {
        lemma_one_output(nodes[j], name);
        assert(is_slice_for(replaced[j]->0, nodes[j]));
        assert(texts(mid[j].outputs@)[0] == name);
    }
    assert(makes_value(mid[j], name));
    lemma_still_made(mid, spread_only(ir, nodes.len() as int), j, name);
}

/// A value that a node or a slice in its place reads.
proof fn lemma_sliced_source(ir: GraphIr, replaced: Seq<Option<NodeIr>>, i: int, name: Seq<char>)
    requires
        all_slices(ir, replaced),
        supplied(ir),
        0 <= i < ir.nodes@.len(),
        reads_value(in_place(ir.nodes@, replaced)[i], name),
    ensures
        slice_constants(ir, ir.nodes@.len() as int).contains_key(name) || given(ir, name) || made(
            rebuilt(
                in_place(ir.nodes@, replaced),
                spread_only(ir, ir.nodes@.len() as int),
                nothing(ir.nodes@.len()),
                ir.nodes@.len() as int,
            ),
            name,
        ),
{
    let nodes = ir.nodes@;
    let n = nodes.len() as int;
    let mid = in_place(nodes, replaced);
    let q = texts(mid[i].inputs@).index_of(name);
    assert(texts(mid[i].inputs@)[q] == name);
    let out = nodes[i].output_name(0);
    if replaced[i] is Some {
        assert(is_slice_for(replaced[i]->0, nodes[i]));
        lemma_slice_names(ir, n, i);
    }
    if replaced[i] is Some && q > 0 {
        assert(name == starts_name(out) || name == ends_name(out) || name == axes_name(out));
    } else {
        if replaced[i] is Some {
            assert(name == nodes[i].input_name(0));
            assert(texts(nodes[i].inputs@)[0] == name);
        }
        assert(reads_value(nodes[i], name));
        assert(has_source(ir, name));
        if !given(ir, name) {
            let j = choose|j: int| 0 <= j < nodes.len() && makes_value(#[trigger] nodes[j], name);
            assert(ir.nodes.len() == n);
            if spread_only(ir, n)[j] {
                let p = lemma_spread_by(ir, n, j);
                lemma_one_output(nodes[j], name);
                lemma_sole_reader(ir, name, p as usize, i);
                assert(row_pick(ir, i) is Some);
                assert(replaced[i] is Some);
                lemma_producer_makes(ir, nodes[i].input_name(1));
                lemma_one_output(nodes[j], nodes[i].input_name(1));
            } else {
                lemma_slices_make(ir, replaced, j, name);
            }
        }
    }
}

/// **Slices instead of row selections leave every value its source**: the parameters are new
/// constants, and nobody else read what is dropped.
pub proof fn law_slices_keep_sources(before: GraphIr, after: GraphIr, r: int)
    requires
        slices_folded(before, after, r),
        supplied(before),
    ensures
        supplied(after),
{
    let nodes = before.nodes@;
    let n = nodes.len() as int;
    let dropped = spread_only(before, n);
    let added = slice_constants(before, n);
    let replaced = choose|replaced: Seq<Option<NodeIr>>|
        replaced.len() == n && #[trigger] slices_in(before, replaced, n) && after.nodes@ == rebuilt(
            nodes,
            dropped,
            replaced,
            n,
        );
    let mid = in_place(nodes, replaced);
    lemma_in_place(nodes, dropped, replaced, n);
    assert(all_slices(before, replaced));
    assert forall|name: Seq<char>| given(before, name) || added.contains_key(name) implies given(
        after,
        name,
    ) by {
        assert(tensor_under(after.initializers, name) == if added.contains_key(name) {
            Some(added[name])
        } else {
            tensor_under(before.initializers, name)
        });
    }
    assert forall|a: int, name: Seq<char>|
        0 <= a < after.nodes@.len() && #[trigger] reads_value(after.nodes@[a], name) implies has_source(
        after,
        name,
    ) by {
        lemma_rebuilt_from(mid, dropped, n, a);
        let i = choose|i: int| 0 <= i < n && !dropped[i] && #[trigger] mid[i] == after.nodes@[a];
        lemma_sliced_source(before, replaced, i, name);
    }
    assert forall|name: Seq<char>|
        name.len() > 0 && #[trigger] texts(after.outputs@).contains(name) implies has_source(
        after,
        name,
    ) by {
        assert(texts(before.outputs@).contains(name));
        assert(has_source(before, name));
        if !given(before, name) {
            let j = choose|j: int| 0 <= j < nodes.len() && makes_value(#[trigger] nodes[j], name);
            if dropped[j] {
                let p = lemma_spread_by(before, n, j);
                lemma_one_output(nodes[j], name);
                assert(!escapes(before, name));
            }
            lemma_slices_make(before, replaced, j, name);
        }
    }
}

// --- masks ------------------------------------------------------------------------------

/// Whether node `x` has one output, and nobody but the dropped node `y` sees it.
spec fn linked(ir: GraphIr, k: int, x: int, y: int) -> bool {
    &&& 0 <= y < ir.nodes@.len()
    &&& ir.nodes@[x].outputs@.len() == 1
    &&& sole_consumer(ir, ir.nodes@[x].output_name(0)) == Some(y as usize)
    &&& masked_nodes(ir, k)[y]
    &&& ir.nodes@[y].is_op("Mul"@) ==> mask_at(ir, y) is Some && mask_at(ir, y)->0.chain.unsqueeze
        == x
}

proof fn lemma_links_are_no_products()
    ensures
        "Neg"@ != "Mul"@,
        "Add"@ != "Mul"@,
        "Unsqueeze"@ != "Mul"@,
        "Cast"@ != "Mul"@,
{
    reveal_strlit("Neg");
    reveal_strlit("Add");
    reveal_strlit("Unsqueeze");
    reveal_strlit("Cast");
    reveal_strlit("Mul");
    assert("Neg"@[0] != "Mul"@[0]);
    assert("Add"@[0] != "Mul"@[0]);
}

proof fn lemma_masked_len(ir: GraphIr, k: int)
    requires
        0 <= k <= ir.nodes@.len(),
    ensures
        masked_nodes(ir, k).len() == ir.nodes@.len(),
    decreases k,
{
    if k > 0 {
        lemma_masked_len(ir, k - 1);
        if mask_at(ir, k - 1) is Some {
            lemma_mask_parts(ir, k - 1);
        }
    }
}

/// What is known of the parts of a mask.
proof fn lemma_mask_parts(ir: GraphIr, u: int)
    requires
        0 <= u < ir.nodes@.len(),
        mask_at(ir, u) is Some,
    ensures
        ({
            let c = mask_at(ir, u)->0.chain;
            let nodes = ir.nodes@;
            &&& c.unsqueeze < nodes.len()
            &&& c.sum < nodes.len()
            &&& c.neg < nodes.len()
            &&& c.cast < nodes.len()
            &&& nodes[c.unsqueeze as int].is_op("Unsqueeze"@)
            &&& nodes[c.unsqueeze as int].outputs@.len() == 1
            &&& nodes[c.sum as int].is_op("Add"@)
            &&& nodes[c.neg as int].is_op("Neg"@)
            &&& nodes[c.cast as int].is_op("Cast"@)
            &&& mask_at(ir, u)->0.equal matches Some(e) ==> e < nodes.len()
                && nodes[e as int].outputs@.len() == 1 && sole_consumer(
                ir,
                nodes[e as int].output_name(0),
            ) == Some(c.cast)
            &&& nodes[u].inputs@.len() == 2
            &&& nodes[u].inputs@[0]@ != nodes[u].inputs@[1]@
            &&& nodes[c.unsqueeze as int].output_name(0) == nodes[u].input_name(
                1 - mask_at(ir, u)->0.operand,
            )
            &&& 0 <= mask_at(ir, u)->0.operand < 2
        }),
{
    let nodes = ir.nodes@;
    let m = mask_at(ir, u)->0;
    let c = m.chain;
    let name = nodes[u].input_name(1 - m.operand);
    lemma_producer_makes(ir, name);
    lemma_one_output(nodes[c.unsqueeze as int], name);
    lemma_producer_makes(ir, nodes[c.unsqueeze as int].input_name(0));
    let source = crate::rewrite::mask::beside_one(ir, nodes[c.sum as int])->0;
    lemma_producer_makes(ir, source);
    lemma_producer_makes(ir, nodes[c.neg as int].input_name(0));
    if let Some(e) = m.equal {
        let compared = nodes[c.cast as int].input_name(0);
        lemma_producer_makes(ir, compared);
        lemma_one_output(nodes[e as int], compared);
    }
}

/// A dropped node is a mask, or a link that only a dropped node reads.
proof fn lemma_gone(ir: GraphIr, k: int, x: int) -> (y: int)
    requires
        0 <= k <= ir.nodes@.len(),
        0 <= x < ir.nodes@.len(),
        masked_nodes(ir, k)[x],
    ensures
        (x < k && mask_at(ir, x) is Some) || linked(ir, k, x, y),
    decreases k,
{
    assert(ir.nodes.len() == ir.nodes@.len());
    if k <= 0 {
        0
    } else {
        lemma_masked_len(ir, k);
        lemma_masked_len(ir, k - 1);
        lemma_links_are_no_products();
        let rest = masked_nodes(ir, k - 1);
        match mask_at(ir, k - 1) {
            None => lemma_gone(ir, k - 1, x),
            Some(m) => {
                lemma_mask_parts(ir, k - 1);
                let c = m.chain;
                if x == k - 1 {
                    0
                } else if x == c.unsqueeze {
                    k - 1
                } else if x == c.sum {
                    c.unsqueeze as int
                } else if x == c.neg {
                    c.sum as int
                } else if x == c.cast {
                    c.neg as int
                } else if m.equal == Some(x as usize) {
                    c.cast as int
                } else {
                    assert(rest[x]);
                    let y = lemma_gone(ir, k - 1, x);
                    if linked(ir, k - 1, x, y) {
                        assert(rest[y]);
                        assert(masked_nodes(ir, k)[y]);
                    }
                    y
                }
            },
        }
    }
}

/// Whether node `t` is a product with a mask that can be removed.
#[verifier::opaque]
spec fn folds(ir: GraphIr, t: int) -> bool {
    mask_at(ir, t) is Some
}

/// Whether `name` is what a link makes that only `y` reads.
#[verifier::opaque]
spec fn link_name(ir: GraphIr, name: Seq<char>, y: int) -> bool {
    name.len() > 0 && exists|x: int|
        0 <= x < ir.nodes@.len() && #[trigger] linked(ir, ir.nodes@.len() as int, x, y)
            && ir.nodes@[x].output_name(0) == name
}

/// Whether nobody reads what the first `k` masks made.
spec fn unmasked(ir: GraphIr, reads: Seq<Seq<Seq<char>>>, k: int) -> bool {
    forall|t: int, i: int|
        0 <= t < k && #[trigger] folds(ir, t) && 0 <= i < reads.len()
            ==> !(#[trigger] reads[i]).contains(ir.nodes@[t].output_name(0))
}

/// Whether what a link makes is read only where it was.
spec fn links_hold(ir: GraphIr, reads: Seq<Seq<Seq<char>>>) -> bool {
    forall|y: int, i: int, p: int|
        0 <= i < reads.len() && 0 <= p < reads[i].len() && #[trigger] link_name(
            ir,
            reads[i][p],
            y,
        ) ==> i == y && ir.nodes@[i].inputs@[p]@ == reads[i][p]
}

proof fn lemma_step_unmasked(
    ir: GraphIr,
    rest: Seq<Seq<Seq<char>>>,
    t: int,
    instead: Seq<char>,
)
    requires
        unmasked(ir, rest, t),
        0 <= t,
        instead != ir.nodes@[t].output_name(0),
        forall|u: int|
            0 <= u < t && #[trigger] folds(ir, u) ==> instead != ir.nodes@[u].output_name(0),
    ensures
        unmasked(ir, substituted(rest, ir.nodes@[t].output_name(0), instead), t + 1),
{
    let masked = ir.nodes@[t].output_name(0);
    let all = substituted(rest, masked, instead);
    assert forall|u: int, i: int| 0 <= u < t + 1 && #[trigger] folds(ir, u) && 0 <= i
        < all.len() implies !(#[trigger] all[i]).contains(ir.nodes@[u].output_name(0)) by {
        let name = ir.nodes@[u].output_name(0);
        if all[i].contains(name) {
            let p = all[i].index_of(name);
            assert(all[i][p] == name);
            assert(rest[i][p] == name || rest[i][p] == masked);
            if rest[i][p] != masked {
                assert(rest[i].contains(name));
            }
        }
    }
}

proof fn lemma_step_links(
    ir: GraphIr,
    rest: Seq<Seq<Seq<char>>>,
    masked: Seq<char>,
    instead: Seq<char>,
)
    requires
        links_hold(ir, rest),
        forall|y: int| !#[trigger] link_name(ir, instead, y),
    ensures
        links_hold(ir, substituted(rest, masked, instead)),
{
    let all = substituted(rest, masked, instead);
    assert forall|y: int, i: int, p: int|
        0 <= i < all.len() && 0 <= p < all[i].len() && #[trigger] link_name(
            ir,
            all[i][p],
            y,
        ) implies i == y && ir.nodes@[i].inputs@[p]@ == all[i][p] by {
        assert(all[i][p] == rest[i][p]);
        assert(link_name(ir, rest[i][p], y));
    }
}

/// What is read in place of a mask is not made by it, nor by an earlier one, nor by a link.
proof fn lemma_instead(ir: GraphIr, t: int) -> (instead: Seq<char>)
    requires
        in_order(ir.nodes@),
        fresh(ir.nodes@, zero_constants(ir, ir.nodes@.len() as int)),
        0 <= t < ir.nodes@.len(),
        mask_at(ir, t) is Some,
        unmasked(ir, reads_after(ir, t), t),
        links_hold(ir, reads_after(ir, t)),
    ensures
        reads_after(ir, t + 1) == substituted(
            reads_after(ir, t),
            ir.nodes@[t].output_name(0),
            instead,
        ),
        instead != ir.nodes@[t].output_name(0),
        forall|u: int|
            0 <= u < t && #[trigger] folds(ir, u) ==> instead != ir.nodes@[u].output_name(0),
        forall|y: int| !#[trigger] link_name(ir, instead, y),
{
    let nodes = ir.nodes@;
    let n = nodes.len() as int;
    let added = zero_constants(ir, n);
    let rest = reads_after(ir, t);
    let m = mask_at(ir, t)->0;
    let masked = nodes[t].output_name(0);
    lemma_reads_after(ir, t);
    lemma_mask_parts(ir, t);
    assert(ir.nodes.len() == n);
    assert(masked.len() > 0);
    assert(texts(nodes[t].outputs@)[0] == masked);
    assert(makes_value(nodes[t], masked));
    assert(rest[t].len() == 2);
    if m.width is Some {
        let instead = zeros_name(masked);
        lemma_zero_added(ir, t, n);
        assert(unmade(nodes, instead));
        assert(instead.len() > 0);
        assert forall|u: int| 0 <= u < t && #[trigger] folds(ir, u) implies instead
            != nodes[u].output_name(0) by {
            reveal(folds);
            lemma_mask_parts(ir, u);
            assert(texts(nodes[u].outputs@)[0] == nodes[u].output_name(0));
            if instead == nodes[u].output_name(0) {
                assert(makes_value(nodes[u], instead));
            }
        }
        assert forall|y: int| !#[trigger] link_name(ir, instead, y) by {
            reveal(link_name);
            if link_name(ir, instead, y) {
                let x = choose|x: int|
                    0 <= x < n && #[trigger] linked(ir, n, x, y) && nodes[x].output_name(0)
                        == instead;
                assert(texts(nodes[x].outputs@)[0] == instead);
                assert(makes_value(nodes[x], instead));
            }
        }
        instead
    } else {
        let instead = rest[t][m.operand];
        assert(rest[t].contains(instead));
        if instead == masked {
            if added.contains_key(instead) {
                assert(unmade(nodes, instead));
            } else {
                assert(read_by(nodes, t, instead));
                let s = choose|s: int|
                    0 <= s <= t && s < nodes.len() && reads_value(#[trigger] nodes[s], instead);
                assert(t < s);
            }
        }
        assert forall|u: int| 0 <= u < t && #[trigger] folds(ir, u) implies instead
            != nodes[u].output_name(0) by {
            assert(!rest[t].contains(nodes[u].output_name(0)));
        }
        assert forall|y: int| !#[trigger] link_name(ir, instead, y) by {
            if link_name(ir, instead, y) {
                assert(link_name(ir, rest[t][m.operand], y));
                assert(t == y && nodes[t].inputs@[m.operand]@ == instead);
                reveal(link_name);
                let x = choose|x: int|
                    0 <= x < n && #[trigger] linked(ir, n, x, y) && nodes[x].output_name(0)
                        == instead;
                assert(m.chain.unsqueeze == x);
                assert(nodes[t].input_name(1 - m.operand) == instead);
            }
        }
        instead
    }
}

proof fn lemma_masks_unread(ir: GraphIr, k: int)
    requires
        in_order(ir.nodes@),
        fresh(ir.nodes@, zero_constants(ir, ir.nodes@.len() as int)),
        0 <= k <= ir.nodes@.len(),
    ensures
        unmasked(ir, reads_after(ir, k), k),
        links_hold(ir, reads_after(ir, k)),
    decreases k,
{
    let nodes = ir.nodes@;
    let n = nodes.len() as int;
    let all = reads_after(ir, k);
    if k == 0 {
        assert forall|y: int, i: int, p: int|
            0 <= i < all.len() && 0 <= p < all[i].len() && #[trigger] link_name(
                ir,
                all[i][p],
                y,
            ) implies i == y && nodes[i].inputs@[p]@ == all[i][p] by {
            reveal(link_name);
            let name = all[i][p];
            let x = choose|x: int|
                0 <= x < n && #[trigger] linked(ir, n, x, y) && nodes[x].output_name(0) == name;
            assert(ir.nodes.len() == n);
            assert(texts(nodes[i].inputs@)[p] == name);
            assert(texts(nodes[i].inputs@).contains(name));
            lemma_sole_reader(ir, name, y as usize, i);
        }
    } else {
        lemma_masks_unread(ir, k - 1);
        let rest = reads_after(ir, k - 1);
        if mask_at(ir, k - 1) is Some {
            let instead = lemma_instead(ir, k - 1);
            lemma_step_unmasked(ir, rest, k - 1, instead);
            lemma_step_links(ir, rest, nodes[k - 1].output_name(0), instead);
        } else {
            assert(all == rest);
            assert(!folds(ir, k - 1)) by {
                reveal(folds);
            }
            assert forall|u: int, i: int| 0 <= u < k && #[trigger] folds(ir, u) && 0 <= i
                < all.len() implies !(#[trigger] all[i]).contains(nodes[u].output_name(0)) by {
                assert(u < k - 1);
            }
        }
    }
}

/// **Folded masks are read nowhere**: no node that is left reads what a folded mask made; whoever
/// did, in however many places, reads what was masked, or zeros.
pub proof fn law_masked_is_unread(before: GraphIr, after: GraphIr, r: int, t: int, a: int)
    requires
        masks_folded(before, after, r),
        in_order(before.nodes@),
        fresh(before.nodes@, zero_constants(before, before.nodes@.len() as int)),
        0 <= t < before.nodes@.len(),
        mask_at(before, t) is Some,
        0 <= a < after.nodes@.len(),
    ensures
        !texts(after.nodes@[a].inputs@).contains(before.nodes@[t].output_name(0)),
{
    let nodes = before.nodes@;
    let n = nodes.len() as int;
    let dropped = masked_nodes(before, n);
    let mid = choose|mid: Seq<NodeIr>|
        #[trigger] nodes_read(mid, nodes, reads_after(before, n)) && after.nodes@ == rebuilt(
            mid,
            dropped,
            nothing(nodes.len()),
            n,
        );
    lemma_masks_unread(before, n);
    lemma_rebuilt_from(mid, dropped, n, a);
    let i = choose|i: int| 0 <= i < n && !dropped[i] && #[trigger] mid[i] == after.nodes@[a];
    assert(crate::rewrite::mask::same_but_reads(mid[i], nodes[i], reads_after(before, n)[i]));
    assert(folds(before, t)) by {
        reveal(folds);
    }
    assert(!reads_after(before, n)[i].contains(nodes[t].output_name(0)));
}

/// **Folding masks leaves every value its source**, where the names of the new constants are
/// fresh.
pub proof fn law_masks_keep_sources(before: GraphIr, after: GraphIr, r: int)
    requires
        masks_folded(before, after, r),
        in_order(before.nodes@),
        supplied(before),
        fresh(before.nodes@, zero_constants(before, before.nodes@.len() as int)),
    ensures
        supplied(after),
{
    let nodes = before.nodes@;
    let n = nodes.len() as int;
    let dropped = masked_nodes(before, n);
    let added = zero_constants(before, n);
    let reads = reads_after(before, n);
    let mid = choose|mid: Seq<NodeIr>|
        #[trigger] nodes_read(mid, nodes, reads) && after.nodes@ == rebuilt(
            mid,
            dropped,
            nothing(nodes.len()),
            n,
        );
    lemma_masked_len(before, n);
    lemma_reads_after(before, n);
    lemma_masks_unread(before, n);
    assert forall|name: Seq<char>| given(before, name) || added.contains_key(name) implies given(
        after,
        name,
    ) by {
        assert(tensor_under(after.initializers, name) == if added.contains_key(name) {
            Some(added[name])
        } else {
            tensor_under(before.initializers, name)
        });
    }
    assert forall|j: int, name: Seq<char>| 0 <= j < n && #[trigger] makes_value(
        nodes[j],
        name,
    ) implies makes_value(mid[j], name) by {
        assert(crate::rewrite::mask::same_but_reads(mid[j], nodes[j], reads[j]));
    }
    assert forall|a: int, name: Seq<char>|
        0 <= a < after.nodes@.len() && #[trigger] reads_value(after.nodes@[a], name) implies has_source(
        after,
        name,
    ) by {
        lemma_rebuilt_from(mid, dropped, n, a);
        let i = choose|i: int| 0 <= i < n && !dropped[i] && #[trigger] mid[i] == after.nodes@[a];
        assert(crate::rewrite::mask::same_but_reads(mid[i], nodes[i], reads[i]));
        assert(reads[i].contains(name));
        if !added.contains_key(name) {
            assert(read_by(nodes, i, name));
            let s = choose|s: int|
                0 <= s <= i && s < nodes.len() && reads_value(#[trigger] nodes[s], name);
            assert(has_source(before, name));
            if !given(before, name) {
                let j = choose|j: int|
                    0 <= j < nodes.len() && makes_value(#[trigger] nodes[j], name);
                if dropped[j] {
                    let y = lemma_gone(before, n, j);
                    lemma_one_output(nodes[j], name);
                    if mask_at(before, j) is Some {
                        assert(folds(before, j)) by {
                            reveal(folds);
                        }
                        assert(!reads[i].contains(nodes[j].output_name(0)));
                    } else {
                        let p = reads[i].index_of(name);
                        assert(reads[i][p] == name);
                        assert(linked(before, n, j, y));
                        assert(link_name(before, name, y)) by {
                            reveal(link_name);
                        }
                        assert(link_name(before, reads[i][p], y));
                        assert(i == y);
                    }
                    assert(false);
                }
                assert(makes_value(mid[j], name));
                lemma_still_made(mid, dropped, j, name);
            }
        }
    }
    assert forall|name: Seq<char>|
        name.len() > 0 && #[trigger] texts(after.outputs@).contains(name) implies has_source(
        after,
        name,
    ) by {
        assert(texts(before.outputs@).contains(name));
        assert(has_source(before, name));
        if !given(before, name) {
            let j = choose|j: int| 0 <= j < nodes.len() && makes_value(#[trigger] nodes[j], name);
            if dropped[j] {
                let y = lemma_gone(before, n, j);
                lemma_one_output(nodes[j], name);
                assert(!escapes(before, name));
            }
            assert(makes_value(mid[j], name));
            lemma_still_made(mid, dropped, j, name);
        }
    }
}

} // verus!
