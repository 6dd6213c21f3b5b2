//! Selection of one row by a constant index, and its replacement by a slice.
//!
//! `GatherElements` along axis 1 with an index that is one constant, spread over a single row,
//! takes one row of its data. The index is a constant scalar, given dimensions by `Unsqueeze`
//! at the front and spread by `Expand`.

use crate::graph::{tensor_under, AttrValue, GraphIr, NodeIr, TensorView};
use crate::names::NameMap;
use crate::rewrite::fold::count_set;
use crate::rewrite::layernorm::{first_output, input_at};
use crate::rewrite::{
    attr_int, attr_ints_are, int64_const_of, int64_constant, int64_init, int_attr_of, int_list,
    ints_attr, no_nodes, only_consumer, producer, producer_in, rebuild, rebuilt, sole_consumer,
};
use crate::text;
use crate::text::texts;
use vstd::prelude::*;

verus! {

/// How many dimensions are given to a scalar at most.
pub const MAX_UNSQUEEZES: u32 = 16;

/// The only element of a list.
pub open spec fn single(v: Option<Seq<i64>>) -> Option<i64> {
    match v {
        Some(s) => if s.len() == 1 {
            Some(s[0])
        } else {
            None
        },
        None => None,
    }
}

/// The axes of an `Unsqueeze`: its second input, or else its attribute.
pub open spec fn unsqueeze_axes(ir: GraphIr, node: NodeIr) -> Option<Seq<i64>> {
    if node.input_name(1).len() > 0 {
        int64_const_of(ir, node.input_name(1))
    } else {
        ints_attr(node, "axes"@)
    }
}

/// Whether an `Unsqueeze` adds a dimension at the front.
pub fn adds_front_axis(ir: &GraphIr, node: &NodeIr) -> (r: bool)
    ensures
        r == (unsqueeze_axes(*ir, *node) == Some(seq![0i64])),
{
    let front: [i64; 1] = [0];
    assert(front@ =~= seq![0i64]);
    let second = input_at(node, 1);
    if !second.as_str().is_empty() {
        match int64_constant(ir, second.as_str()) {
            Some(v) => crate::host_ops::select::same_dims(v.as_slice(), &front),
            None => false,
        }
    } else {
        attr_ints_are(node, "axes", &front)
    }
}

/// The constant scalar that `name` is, apart from dimensions added at the front.
pub open spec fn scalar_source(ir: GraphIr, name: Seq<char>, fuel: nat) -> Option<i64>
    decreases fuel,
{
    if fuel == 0 {
        None
    } else {
        match producer_in(ir, name) {
            None => single(int64_const_of(ir, name)),
            Some(i) => {
                let node = ir.nodes@[i as int];
                if !node.is_op("Unsqueeze"@) || node.outputs@.len() != 1 {
                    single(int64_const_of(ir, name))
                } else if unsqueeze_axes(ir, node) != Some(seq![0i64]) {
                    None
                } else {
                    scalar_source(ir, node.input_name(0), (fuel - 1) as nat)
                }
            },
        }
    }
}

fn single_constant(ir: &GraphIr, name: &str) -> (r: Option<i64>)
    ensures
        r == single(int64_const_of(*ir, name@)),
{
    match int64_constant(ir, name) {
        Some(v) => if v.len() == 1 {
            Some(v[0])
        } else {
            None
        },
        None => None,
    }
}

/// The constant scalar that `name` is, apart from dimensions added at the front.
fn unsqueezed_scalar_source(ir: &GraphIr, name: &str, fuel: u32) -> (r: Option<i64>)
    ensures
        r == scalar_source(*ir, name@, fuel as nat),
    decreases fuel,
{
    if fuel == 0 {
        return None;
    }
    match producer(ir, name) {
        None => single_constant(ir, name),
        Some(i) => {
            let node: &NodeIr = &ir.nodes[i];
            if !node.is_standard("Unsqueeze") || node.outputs.len() != 1 {
                single_constant(ir, name)
            } else if !adds_front_axis(ir, node) {
                None
            } else {
                let source = input_at(node, 0);
                unsqueezed_scalar_source(ir, source.as_str(), fuel - 1)
            }
        },
    }
}

/// Whether the shape `name` has one row: three constant dimensions with 1 in the middle, or
/// three joined parts with a constant 1 in the middle.
pub open spec fn is_single_row(ir: GraphIr, name: Seq<char>) -> bool {
    match int64_const_of(ir, name) {
        Some(s) => s.len() == 3 && s[1] == 1,
        None => match producer_in(ir, name) {
            Some(c) => {
                let node = ir.nodes@[c as int];
                node.is_op("Concat"@) && node.inputs@.len() == 3 && int64_const_of(
                    ir,
                    node.input_name(1),
                ) == Some(seq![1i64])
            },
            None => false,
        },
    }
}

fn single_row(ir: &GraphIr, name: &str) -> (r: bool)
    ensures
        r == is_single_row(*ir, name@),
{
    let one: [i64; 1] = [1];
    assert(one@ =~= seq![1i64]);
    match int64_constant(ir, name) {
        Some(s) => s.len() == 3 && s[1] == 1,
        None => match producer(ir, name) {
            Some(c) => {
                let node: &NodeIr = &ir.nodes[c];
                if !node.is_standard("Concat") || node.inputs.len() != 3 {
                    return false;
                }
                match int64_constant(ir, node.inputs[1].as_str()) {
                    Some(v) => crate::host_ops::select::same_dims(v.as_slice(), &one),
                    None => false,
                }
            },
            None => false,
        },
    }
}

/// A selection that is a slice: the node that spreads the index, and the row.
pub struct RowPick {
    pub expand: usize,
    pub row: i64,
}

/// The row that node `i` selects, where it selects one by a constant.
pub open spec fn row_pick(ir: GraphIr, i: int) -> Option<RowPick> {
    let node = ir.nodes@[i];
    if !node.is_op("GatherElements"@) || node.outputs@.len() != 1 || node.input_name(0)
        == node.input_name(1) || int_attr_of(node, "axis"@) != Some(1i64) {
        None
    } else {
        match producer_in(ir, node.input_name(1)) {
            None => None,
            Some(expand) => {
                let e = ir.nodes@[expand as int];
                match scalar_source(ir, e.input_name(0), MAX_UNSQUEEZES as nat) {
                    Some(row) if e.is_op("Expand"@) && e.inputs@.len() == 2 && e.outputs@.len() == 1 && is_single_row(
                        ir,
                        e.input_name(1),
                    ) && sole_consumer(ir, e.output_name(0)) == Some(i as usize) && row < i64::MAX => Some(
                        RowPick { expand, row },
                    ),
                    _ => None,
                }
            },
        }
    }
}

fn find_row_pick(ir: &GraphIr, i: usize) -> (r: Option<RowPick>)
    requires
        i < ir.nodes@.len(),
    ensures
        r == row_pick(*ir, i as int),
        r matches Some(p) ==> p.expand < ir.nodes@.len(),
{
    let node: &NodeIr = &ir.nodes[i];
    if !node.is_standard("GatherElements") || node.outputs.len() != 1 {
        return None;
    }
    match attr_int(node, "axis") {
        Some(a) => {
            if a != 1 {
                return None;
            }
        },
        None => {
            return None;
        },
    }
    let index = input_at(node, 1);
    let data = input_at(node, 0);
    if text::same(data.as_str(), index.as_str()) {
        return None;
    }
    match producer(ir, index.as_str()) {
        None => None,
        Some(expand) => {
            let e: &NodeIr = &ir.nodes[expand];
            let source = input_at(e, 0);
            match unsqueezed_scalar_source(ir, source.as_str(), MAX_UNSQUEEZES) {
                None => None,
                Some(row) => {
                    if !e.is_standard("Expand") || e.inputs.len() != 2 || e.outputs.len() != 1
                        || row == i64::MAX {
                        return None;
                    }
                    if !single_row(ir, e.inputs[1].as_str()) {
                        return None;
                    }
                    let spread = first_output(e);
                    match only_consumer(ir, spread.as_str()) {
                        Some(c) => if c == i {
                            Some(RowPick { expand, row })
                        } else {
                            None
                        },
                        None => None,
                    }
                },
            }
        },
    }
}

/// The names of the constants that a slice reads.
pub open spec fn starts_name(out: Seq<char>) -> Seq<char> {
    out + "__sl_starts"@
}

pub open spec fn ends_name(out: Seq<char>) -> Seq<char> {
    out + "__sl_ends"@
}

pub open spec fn axes_name(out: Seq<char>) -> Seq<char> {
    out + "__sl_axes"@
}

/// Whether `node` is the slice that replaces the selection `was`.
pub open spec fn is_slice_for(node: NodeIr, was: NodeIr) -> bool {
    let out = was.output_name(0);
    &&& node.is_op("Slice"@)
    &&& node.since_version == 10
    &&& node.name@ == was.name@
    &&& texts(node.inputs@) == seq![
        was.input_name(0),
        starts_name(out),
        ends_name(out),
        axes_name(out),
    ]
    &&& texts(node.outputs@) == seq![out]
    &&& node.attrs.wf()
    &&& node.attrs.map() == Map::<Seq<char>, AttrValue>::empty()
}

/// The slice that replaces the selection.
fn slice_for(was: &NodeIr) -> (r: NodeIr)
    ensures
        is_slice_for(r, *was),
{
    let out = first_output(was);
    let mut inputs: Vec<String> = Vec::new();
    inputs.push(input_at(was, 0));
    inputs.push(text::joined(out.as_str(), "__sl_starts"));
    inputs.push(text::joined(out.as_str(), "__sl_ends"));
    inputs.push(text::joined(out.as_str(), "__sl_axes"));
    let ghost name = out@;
    let mut outputs: Vec<String> = Vec::new();
    outputs.push(out);
    let domain = String::new();
    proof {
        assert(domain@ =~= Seq::<char>::empty());
        assert(texts(outputs@) =~= seq![name]);
        assert(texts(inputs@) =~= seq![
            was.input_name(0),
            starts_name(name),
            ends_name(name),
            axes_name(name),
        ]);
    }
    NodeIr {
        domain,
        op: text::owned("Slice"),
        since_version: 10,
        name: was.name.clone(),
        inputs,
        outputs,
        attrs: NameMap::new(),
    }
}

/// Where the slice of a row ends. The last row, counted from the end, has no row behind it: its
/// slice runs as far as there is something.
pub open spec fn row_end(row: i64) -> i64 {
    if row == -1 {
        i64::MAX
    } else {
        (row + 1) as i64
    }
}

/// The tensors with those that the slices of the first `k` nodes read.
pub open spec fn slice_constants(ir: GraphIr, k: int) -> Map<Seq<char>, TensorView>
    decreases k,
{
    if k <= 0 {
        Map::empty()
    } else {
        let rest = slice_constants(ir, k - 1);
        match row_pick(ir, k - 1) {
            Some(p) => {
                let out = ir.nodes@[k - 1].output_name(0);
                rest.insert(starts_name(out), int_list(seq![p.row])).insert(
                    ends_name(out),
                    int_list(seq![row_end(p.row)]),
                ).insert(axes_name(out), int_list(seq![1i64]))
            },
            None => rest,
        }
    }
}

/// Which nodes only spread the index of a selection that was replaced.
pub open spec fn spread_only(ir: GraphIr, k: int) -> Seq<bool>
    decreases k,
{
    if k <= 0 {
        Seq::new(ir.nodes@.len(), |i: int| false)
    } else {
        let rest = spread_only(ir, k - 1);
        match row_pick(ir, k - 1) {
            Some(p) => rest.update(p.expand as int, true),
            None => rest,
        }
    }
}

/// Which nodes are replaced by slices.
pub open spec fn picks_rows(ir: GraphIr) -> Seq<bool> {
    Seq::new(ir.nodes@.len(), |i: int| row_pick(ir, i) is Some)
}

/// Whether the replacements are the slices, each in the place of its selection.
pub open spec fn slices_in(ir: GraphIr, replaced: Seq<Option<NodeIr>>, k: int) -> bool {
    forall|i: int|
        0 <= i < replaced.len() ==> match #[trigger] replaced[i] {
            Some(n) => i < k && row_pick(ir, i) is Some && is_slice_for(n, ir.nodes@[i]),
            None => i >= k || row_pick(ir, i) is None,
        }
}

/// Whether a graph is another with its constant row selections as slices, `r` of them.
pub open spec fn slices_folded(before: GraphIr, after: GraphIr, r: int) -> bool {
    &&& after.inputs == before.inputs
    &&& after.outputs == before.outputs
    &&& r == count_set(picks_rows(before), before.nodes@.len() as int)
    &&& after.initializers.wf()
    &&& forall|name: Seq<char>|
        #[trigger] tensor_under(after.initializers, name) == {
            let added = slice_constants(before, before.nodes@.len() as int);
            if added.contains_key(name) {
                Some(added[name])
            } else {
                tensor_under(before.initializers, name)
            }
        }
    &&& exists|replaced: Seq<Option<NodeIr>>|
        replaced.len() == before.nodes@.len() && #[trigger] slices_in(
            before,
            replaced,
            before.nodes@.len() as int,
        ) && after.nodes@ == rebuilt(
            before.nodes@,
            spread_only(before, before.nodes@.len() as int),
            replaced,
            before.nodes@.len() as int,
        )
}

/// Replaces every selection of one row by a constant index by a slice, and drops the node
/// that spreads the index. Returns how many.
pub fn fold_const_get_slice(ir: &mut GraphIr) -> (r: usize)
    requires
        old(ir).initializers.wf(),
    ensures
        slices_folded(*old(ir), *final(ir), r as int),
{
    let ghost g = *ir;
    let n: usize = ir.nodes.len();
    let mut dropped: Vec<bool> = vec![false; n];
    let mut replaced = no_nodes(n);
    let mut added: Vec<(String, i64)> = Vec::new();
    let mut i: usize = 0;
    let ghost flags = picks_rows(g);
    assert(dropped@ =~= spread_only(g, 0));
    while i < n
        invariant
            i <= n,
            n == g.nodes@.len(),
            *ir == g,
            g == *old(ir),
            flags == picks_rows(g),
            dropped@.len() == n,
            dropped@ == spread_only(g, i as int),
            replaced@.len() == n,
            slices_in(g, replaced@, i as int),
            added@.len() == count_set(flags, i as int),
            added@.len() <= i,
            added_to(added@) == slice_constants(g, i as int),
            forall|k: int| 0 <= k < added@.len() ==> (#[trigger] added@[k]).1 < i64::MAX,
        decreases n - i,
    {
        let ghost slots = replaced@;
        match find_row_pick(ir, i) {
            Some(p) => {
                let node = slice_for(&ir.nodes[i]);
                let out = first_output(&ir.nodes[i]);
                let ghost was = added@;
                replaced.set(i, Some(node));
                dropped.set(p.expand, true);
                added.push((out, p.row));
                proof {
                    assert(added@.drop_last() =~= was);
                    assert(flags[i as int]);
                }
            },
            None => {
                assert(!flags[i as int]);
            },
        }
        proof {
            assert forall|q: int| 0 <= q < n implies match #[trigger] replaced@[q] {
                Some(x) => q < i + 1 && row_pick(g, q) is Some && is_slice_for(x, g.nodes@[q]),
                None => q >= i + 1 || row_pick(g, q) is None,
            } by {
                if q != i {
                    assert(replaced@[q] == slots[q]);
                } else {
                    assert(slots[q] is None);
                }
            }
        }
        i += 1;
    }
    let count: usize = added.len();
    let mut j: usize = 0;
    assert(added@.take(0) =~= Seq::empty());
    while j < count
        invariant
            j <= count,
            count == added@.len(),
            ir.nodes == g.nodes,
            ir.inputs == g.inputs,
            ir.outputs == g.outputs,
            ir.initializers.wf(),
            forall|k: int| 0 <= k < added@.len() ==> (#[trigger] added@[k]).1 < i64::MAX,
            forall|name: Seq<char>|
                #[trigger] tensor_under(ir.initializers, name) == {
                    let m = added_to(added@.take(j as int));
                    if m.contains_key(name) {
                        Some(m[name])
                    } else {
                        tensor_under(g.initializers, name)
                    }
                },
        decreases count - j,
    {
        let ghost was = ir.initializers;
        let ghost m0 = added_to(added@.take(j as int));
        let out = added[j].0.as_str();
        let row: i64 = added[j].1;
        let start: [i64; 1] = [row];
        let end: [i64; 1] = [if row == -1 { i64::MAX } else { row + 1 }];
        let axis: [i64; 1] = [1];
        ir.initializers.insert(text::joined(out, "__sl_starts"), int64_init(&start));
        ir.initializers.insert(text::joined(out, "__sl_ends"), int64_init(&end));
        ir.initializers.insert(text::joined(out, "__sl_axes"), int64_init(&axis));
        proof {
            assert(added@.take(j + 1).drop_last() =~= added@.take(j as int));
            assert(added@.take(j + 1).last() == added@[j as int]);
            assert(start@ =~= seq![row]);
            assert(end@ =~= seq![row_end(row)]);
            assert(axis@ =~= seq![1i64]);
            assert forall|name: Seq<char>|
                #[trigger] tensor_under(ir.initializers, name) == {
                    let m = added_to(added@.take(j + 1));
                    if m.contains_key(name) {
                        Some(m[name])
                    } else {
                        tensor_under(g.initializers, name)
                    }
                } by {
                assert(tensor_under(was, name) == if m0.contains_key(name) {
                    Some(m0[name])
                } else {
                    tensor_under(g.initializers, name)
                });
            }
        }
        j += 1;
    }
    assert(added@.take(count as int) =~= added@);
    let mut nodes: Vec<NodeIr> = Vec::new();
    core::mem::swap(&mut nodes, &mut ir.nodes);
    proof {
        let slots = replaced@;
        assert(slices_in(g, slots, n as int));
    }
    ir.nodes = rebuild(nodes, &dropped, replaced);
    count
}

/// The constants of slices for these outputs and rows.
pub open spec fn added_to(added: Seq<(String, i64)>) -> Map<Seq<char>, TensorView>
    decreases added.len(),
{
    if added.len() == 0 {
        Map::empty()
    } else {
        let rest = added_to(added.drop_last());
        let out = added.last().0@;
        let row = added.last().1;
        rest.insert(starts_name(out), int_list(seq![row])).insert(
            ends_name(out),
            int_list(seq![row_end(row)]),
        ).insert(axes_name(out), int_list(seq![1i64]))
    }
}

} // verus!
