//! Interleaved heads in front of an attention node, and their rearrangement within it.
//!
//! A `Transpose` that swaps the last two of five dimensions, behind a `Reshape` and followed by
//! nothing but `Reshape` up to the query or key of a `GroupQueryAttention` with heads of 32, goes; the attention is
//! told to rearrange its heads itself.

use crate::graph::{AttrValue, GraphIr, NodeIr};
use crate::rewrite::fold::count_set;
use crate::rewrite::layernorm::{first_input_is, first_output, input_at, starts_with};
use crate::rewrite::{
    attr_ints_are, int64_const_of, int64_constant, ints_attr, no_nodes, nothing, only_consumer,
    producer, producer_in, rebuild, rebuilt, sole_consumer,
};
use crate::text;
use vstd::prelude::*;

verus! {

/// How many `Reshape` nodes are followed at most.
pub const MAX_RESHAPES: u32 = 64;

/// The size of the heads that the attention can rearrange.
pub const HEAD_DIM: i64 = 32;

/// The first reader of `name` beyond any run of `Reshape` nodes, and the name that it reads.
pub open spec fn beyond_reshapes(ir: GraphIr, name: Seq<char>, fuel: nat) -> Option<
    (Seq<char>, usize),
>
    decreases fuel,
{
    if fuel == 0 {
        None
    } else {
        match sole_consumer(ir, name) {
            None => None,
            Some(c) => {
                let n = ir.nodes@[c as int];
                if n.is_op("Reshape"@) && starts_with(n, name) {
                    beyond_reshapes(ir, n.output_name(0), (fuel - 1) as nat)
                } else {
                    Some((name, c))
                }
            },
        }
    }
}

fn follow_reshapes(ir: &GraphIr, name: String, fuel: u32) -> (r: Option<(String, usize)>)
    ensures
        match r {
            Some(e) => beyond_reshapes(*ir, name@, fuel as nat) == Some((e.0@, e.1)) && e.1
                < ir.nodes@.len(),
            None => beyond_reshapes(*ir, name@, fuel as nat) is None,
        },
    decreases fuel,
{
    if fuel == 0 {
        return None;
    }
    match only_consumer(ir, name.as_str()) {
        None => None,
        Some(c) => {
            let n: &NodeIr = &ir.nodes[c];
            if n.is_standard("Reshape") && first_input_is(n, name.as_str()) {
                follow_reshapes(ir, first_output(n), fuel - 1)
            } else {
                Some((name, c))
            }
        },
    }
}

/// Whether the node is the attention, and reads `name` as query or key.
pub open spec fn attends(node: NodeIr, name: Seq<char>) -> bool {
    &&& node.op@ == "GroupQueryAttention"@
    &&& node.domain@ == "com.microsoft"@
    &&& (node.inputs@.len() > 0 && node.inputs@[0]@ == name) || (node.inputs@.len() > 1
        && node.inputs@[1]@ == name)
}

/// Whether the constant shape `name` ends with the size of a head.
pub open spec fn ends_with_head(ir: GraphIr, name: Seq<char>) -> bool {
    match int64_const_of(ir, name) {
        Some(s) => s.len() > 0 && s.last() == HEAD_DIM,
        None => false,
    }
}

/// A rearrangement that can go: the `Reshape` behind it, and the attention.
pub struct Rearrangement {
    pub reshape: usize,
    pub attention: usize,
}

/// Whether a `Reshape` makes the value `name`.
pub open spec fn comes_reshaped(ir: GraphIr, name: Seq<char>) -> bool {
    producer_in(ir, name) matches Some(p) && ir.nodes@[p as int].is_op("Reshape"@)
}

/// The rearrangement at node `i`, where it can go.
pub open spec fn rearrangement_at(ir: GraphIr, i: int) -> Option<Rearrangement> {
    let node = ir.nodes@[i];
    let out = node.output_name(0);
    if !node.is_op("Transpose"@) || node.outputs@.len() != 1 || node.inputs@.len() == 0 || ints_attr(
        node,
        "perm"@,
    ) != Some(seq![0i64, 1i64, 2i64, 4i64, 3i64]) || !comes_reshaped(ir, node.input_name(0)) {
        None
    } else {
        match sole_consumer(ir, out) {
            None => None,
            Some(reshape) => {
                let first = ir.nodes@[reshape as int];
                if !first.is_op("Reshape"@) || first.inputs@.len() != 2 || !starts_with(first, out) {
                    None
                } else {
                    match beyond_reshapes(ir, first.output_name(0), MAX_RESHAPES as nat) {
                        None => None,
                        Some((name, attention)) => if attends(ir.nodes@[attention as int], name)
                            && ends_with_head(ir, first.input_name(1)) {
                            Some(Rearrangement { reshape, attention })
                        } else {
                            None
                        },
                    }
                }
            },
        }
    }
}

fn find_rearrangement(ir: &GraphIr, i: usize) -> (r: Option<Rearrangement>)
    requires
        i < ir.nodes@.len(),
    ensures
        r == rearrangement_at(*ir, i as int),
        r matches Some(m) ==> m.reshape < ir.nodes@.len() && m.attention < ir.nodes@.len()
            && ir.nodes@[m.reshape as int].inputs@.len() > 0 && ir.nodes@[i as int].inputs@.len() > 0,
{
    let node: &NodeIr = &ir.nodes[i];
    let perm: [i64; 5] = [0, 1, 2, 4, 3];
    assert(perm@ =~= seq![0i64, 1i64, 2i64, 4i64, 3i64]);
    if !node.is_standard("Transpose") || node.outputs.len() != 1 || node.inputs.len() == 0
        || !attr_ints_are(node, "perm", &perm) {
        return None;
    }
    match producer(ir, node.inputs[0].as_str()) {
        Some(p) => {
            if !ir.nodes[p].is_standard("Reshape") {
                return None;
            }
        },
        None => {
            return None;
        },
    }
    let out = first_output(node);
    match only_consumer(ir, out.as_str()) {
        None => None,
        Some(reshape) => {
            let first: &NodeIr = &ir.nodes[reshape];
            if !first.is_standard("Reshape") || first.inputs.len() != 2 || !first_input_is(first, out.as_str()) {
                return None;
            }
            let (name, attention) = match follow_reshapes(ir, first_output(first), MAX_RESHAPES) {
                Some(e) => e,
                None => {
                    return None;
                },
            };
            let a: &NodeIr = &ir.nodes[attention];
            if !text::same(a.op.as_str(), "GroupQueryAttention") || !text::same(
                a.domain.as_str(),
                "com.microsoft",
            ) {
                return None;
            }
            let leg = (a.inputs.len() > 0 && text::same(a.inputs[0].as_str(), name.as_str())) || (
            a.inputs.len() > 1 && text::same(a.inputs[1].as_str(), name.as_str()));
            if !leg {
                return None;
            }
            let shape_name = input_at(first, 1);
            match int64_constant(ir, shape_name.as_str()) {
                Some(s) => {
                    let n: usize = s.len();
                    if n > 0 && s[n - 1] == HEAD_DIM {
                        assert(s@.last() == s@[n - 1]);
                        Some(Rearrangement { reshape, attention })
                    } else {
                        proof {
                            if n > 0 {
                                assert(s@.last() == s@[n - 1]);
                            }
                        }
                        None
                    }
                },
                None => None,
            }
        },
    }
}

/// Which transposes go.
pub open spec fn rearranges(ir: GraphIr) -> Seq<bool> {
    Seq::new(ir.nodes@.len(), |i: int| rearrangement_at(ir, i) is Some)
}

/// The first name that each node reads after the first `k` rearrangements went: a `Reshape`
/// behind one reads what the transpose read.
pub open spec fn first_reads(ir: GraphIr, k: int) -> Seq<Seq<char>>
    decreases k,
{
    if k <= 0 {
        ir.nodes@.map_values(|n: NodeIr| n.input_name(0))
    } else {
        let rest = first_reads(ir, k - 1);
        match rearrangement_at(ir, k - 1) {
            Some(m) => rest.update(m.reshape as int, ir.nodes@[k - 1].input_name(0)),
            None => rest,
        }
    }
}

/// Which attention nodes rearrange their heads after the first `k` rearrangements went.
pub open spec fn told(ir: GraphIr, k: int) -> Seq<bool>
    decreases k,
{
    if k <= 0 {
        Seq::new(ir.nodes@.len(), |i: int| false)
    } else {
        let rest = told(ir, k - 1);
        match rearrangement_at(ir, k - 1) {
            Some(m) => rest.update(m.attention as int, true),
            None => rest,
        }
    }
}

/// Whether `now` is `was`, but for the first name that it reads and the attribute that tells
/// it to rearrange.
pub open spec fn rearranged(now: NodeIr, was: NodeIr, first: Seq<char>, is_told: bool) -> bool {
    &&& now.domain == was.domain
    &&& now.op == was.op
    &&& now.since_version == was.since_version
    &&& now.name == was.name
    &&& now.outputs == was.outputs
    &&& now.inputs@.len() == was.inputs@.len()
    &&& now.input_name(0) == first
    &&& forall|i: int| 1 <= i < was.inputs@.len() ==> #[trigger] now.inputs@[i] == was.inputs@[i]
    &&& now.attrs.wf()
    &&& now.attrs.map() == if is_told {
        was.attrs.map().insert("qk_reorder"@, AttrValue::Int(1))
    } else {
        was.attrs.map()
    }
}

pub open spec fn all_rearranged(
    now: Seq<NodeIr>,
    was: Seq<NodeIr>,
    firsts: Seq<Seq<char>>,
    flags: Seq<bool>,
) -> bool {
    &&& now.len() == was.len()
    &&& firsts.len() == was.len()
    &&& flags.len() == was.len()
    &&& forall|i: int|
        0 <= i < was.len() ==> rearranged(#[trigger] now[i], was[i], firsts[i], flags[i])
}

/// Whether all attribute tables are sound.
pub open spec fn attrs_sound(nodes: Seq<NodeIr>) -> bool {
    forall|i: int| 0 <= i < nodes.len() ==> (#[trigger] nodes[i]).attrs.wf()
}

/// Whether a graph is another without the rearrangements that attention does itself; `r` nodes
/// were dropped.
pub open spec fn rearranges_fused(before: GraphIr, after: GraphIr, r: int) -> bool {
    &&& after.initializers == before.initializers
    &&& after.inputs == before.inputs
    &&& after.outputs == before.outputs
    &&& r == count_set(rearranges(before), before.nodes@.len() as int)
    &&& exists|mid: Seq<NodeIr>|
        #[trigger] all_rearranged(
            mid,
            before.nodes@,
            first_reads(before, before.nodes@.len() as int),
            told(before, before.nodes@.len() as int),
        ) && after.nodes@ == rebuilt(
            mid,
            rearranges(before),
            nothing(before.nodes@.len()),
            before.nodes@.len() as int,
        )
}

/// Drops every rearrangement that an attention node can do itself, and tells it to. Returns
/// how many nodes were dropped.
pub fn fuse_gqa_qk_deint(ir: &mut GraphIr) -> (r: usize)
    requires
        attrs_sound(old(ir).nodes@),
    ensures
        rearranges_fused(*old(ir), *final(ir), r as int),
{
    let ghost g = *ir;
    let n: usize = ir.nodes.len();
    let ghost flags = rearranges(g);
    let mut dropped: Vec<bool> = Vec::new();
    let mut tell: Vec<bool> = vec![false; n];
    let mut moves: Vec<(usize, String)> = Vec::new();
    let mut count: usize = 0;
    let mut i: usize = 0;
    let ghost firsts0 = g.nodes@.map_values(|n: NodeIr| n.input_name(0));
    assert(tell@ =~= told(g, 0));
    while i < n
        invariant
            i <= n,
            n == g.nodes@.len(),
            *ir == g,
            g == *old(ir),
            flags == rearranges(g),
            firsts0 == g.nodes@.map_values(|n: NodeIr| n.input_name(0)),
            dropped@ == flags.take(i as int),
            tell@.len() == n,
            tell@ == told(g, i as int),
            moved(firsts0, moves@) == first_reads(g, i as int),
            forall|k: int|
                0 <= k < moves@.len() ==> (#[trigger] moves@[k]).0 < n
                    && g.nodes@[moves@[k].0 as int].inputs@.len() > 0,
            count == count_set(flags, i as int),
            count <= i,
        decreases n - i,
    {
        match find_rearrangement(ir, i) {
            Some(m) => {
                let ghost was = moves@;
                dropped.push(true);
                moves.push((m.reshape, input_at(&ir.nodes[i], 0)));
                tell.set(m.attention, true);
                count += 1;
                proof {
                    assert(moves@.drop_last() =~= was);
                    assert(flags[i as int]);
                }
            },
            None => {
                dropped.push(false);
                assert(!flags[i as int]);
            },
        }
        assert(dropped@ =~= flags.take(i + 1));
        i += 1;
    }
    assert(flags.take(n as int) =~= flags);
    let m: usize = moves.len();
    let mut j: usize = 0;
    let ghost quiet = Seq::new(n as nat, |i: int| false);
    proof {
        assert(moves@.take(0) =~= Seq::empty());
        assert(all_rearranged(ir.nodes@, g.nodes@, firsts0, quiet));
    }
    while j < m
        invariant
            j <= m,
            m == moves@.len(),
            n == g.nodes@.len(),
            ir.initializers == g.initializers,
            ir.inputs == g.inputs,
            ir.outputs == g.outputs,
            quiet == Seq::new(n as nat, |i: int| false),
            forall|k: int|
                0 <= k < moves@.len() ==> (#[trigger] moves@[k]).0 < n
                    && g.nodes@[moves@[k].0 as int].inputs@.len() > 0,
            all_rearranged(ir.nodes@, g.nodes@, moved(firsts0, moves@.take(j as int)), quiet),
        decreases m - j,
    {
        let ghost before = ir.nodes@;
        let ghost f0 = moved(firsts0, moves@.take(j as int));
        let c: usize = moves[j].0;
        let value = moves[j].1.clone();
        proof {
            assert(moves@.take(j + 1).drop_last() =~= moves@.take(j as int));
            assert(moves@.take(j + 1).last() == moves@[j as int]);
            assert(rearranged(before[c as int], g.nodes@[c as int], f0[c as int], false));
        }
        ir.nodes[c].inputs.set(0, value);
        proof {
            let f1 = moved(firsts0, moves@.take(j + 1));
            assert forall|q: int| 0 <= q < n implies rearranged(
                #[trigger] ir.nodes@[q],
                g.nodes@[q],
                f1[q],
                quiet[q],
            ) by {
                assert(rearranged(before[q], g.nodes@[q], f0[q], quiet[q]));
            }
        }
        j += 1;
    }
    assert(moves@.take(m as int) =~= moves@);
    let ghost firsts = first_reads(g, n as int);
    let mut k: usize = 0;
    let ghost want = told(g, n as int);
    while k < n
        invariant
            k <= n,
            n == g.nodes@.len(),
            n == tell@.len(),
            tell@ == want,
            ir.initializers == g.initializers,
            ir.inputs == g.inputs,
            ir.outputs == g.outputs,
            all_rearranged(
                ir.nodes@,
                g.nodes@,
                firsts,
                Seq::new(n as nat, |i: int| i < k && want[i]),
            ),
        decreases n - k,
    {
        let ghost before = ir.nodes@;
        let ghost f0 = Seq::new(n as nat, |i: int| i < k && want[i]);
        assert(rearranged(before[k as int], g.nodes@[k as int], firsts[k as int], f0[k as int]));
        if tell[k] {
            ir.nodes[k].attrs.insert(text::owned("qk_reorder"), AttrValue::Int(1));
        }
        proof {
            let f1 = Seq::new(n as nat, |i: int| i < k + 1 && want[i]);
            assert forall|q: int| 0 <= q < n implies rearranged(
                #[trigger] ir.nodes@[q],
                g.nodes@[q],
                firsts[q],
                f1[q],
            ) by {
                assert(rearranged(before[q], g.nodes@[q], firsts[q], f0[q]));
            }
        }
        k += 1;
    }
    let ghost mid = ir.nodes@;
    let mut nodes: Vec<NodeIr> = Vec::new();
    core::mem::swap(&mut nodes, &mut ir.nodes);
    proof {
        assert(Seq::new(n as nat, |i: int| i < n && want[i]) =~= want);
        assert(all_rearranged(mid, g.nodes@, firsts, want));
    }
    ir.nodes = rebuild(nodes, &dropped, no_nodes(n));
    count
}

/// The first names that the nodes read after these changes.
pub open spec fn moved(firsts: Seq<Seq<char>>, moves: Seq<(usize, String)>) -> Seq<Seq<char>>
    decreases moves.len(),
{
    if moves.len() == 0 {
        firsts
    } else {
        moved(firsts, moves.drop_last()).update(moves.last().0 as int, moves.last().1@)
    }
}

} // verus!
