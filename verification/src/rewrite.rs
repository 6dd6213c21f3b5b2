//! Rewrites of a graph at load time: patterns of operators become one operator, values that
//! are constant are computed, and what nothing reads is dropped.
//!
//! The decisions are functions of the graph: who reads a value, who produces it, whether it
//! is constant. Each rewrite is the list of nodes that it drops and of those it replaces.

pub mod fold;
pub mod fold_laws;
pub mod layernorm;
pub mod mask;
pub mod meaning;
pub mod optional_laws;
pub mod order;
pub mod prune;
pub mod rearrange;
pub mod settled;
pub mod slices;
pub mod sources;
pub mod supply;

pub use fold::fold_constants;
pub use layernorm::fuse_layernorm;
pub use mask::fold_prev_embed_const_mask;
pub use prune::{prune_dead_initializers, prune_dead_nodes};
pub use rearrange::fuse_gqa_qk_deint;
pub use slices::fold_const_get_slice;

use crate::fusion::producer_of;
use crate::graph::{constant_value, GraphIr, InitializerIr, NodeIr, TensorView};
use crate::host_ops::{floats_of, int_bytes, ints_of, FLOAT, INT64};
use crate::rewrite::prune::{captured, captured_names};
use crate::text;
use crate::text::texts;
use vstd::prelude::*;

verus! {

// --- lists of names ---------------------------------------------------------------------

/// Whether the list holds `name`.
pub fn has_name(list: &Vec<String>, name: &str) -> (r: bool)
    ensures
        r == texts(list@).contains(name@),
{
    let n: usize = list.len();
    let mut i: usize = 0;
    while i < n
        invariant
            i <= n,
            n == list@.len(),
            forall|k: int| 0 <= k < i ==> (#[trigger] list@[k])@ != name@,
        decreases n - i,
    {
        if text::same(list[i].as_str(), name) {
            assert(texts(list@)[i as int] == name@);
            return true;
        }
        i += 1;
    }
    proof {
        if texts(list@).contains(name@) {
            let k = texts(list@).index_of(name@);
            assert(list@[k]@ == name@);
        }
    }
    false
}

// --- who reads a value ------------------------------------------------------------------

/// The nodes below `k` that read `name`, ascending.
pub open spec fn readers(nodes: Seq<NodeIr>, name: Seq<char>, k: int) -> Seq<usize>
    decreases k,
{
    if k <= 0 {
        Seq::empty()
    } else {
        let rest = readers(nodes, name, k - 1);
        if texts(nodes[k - 1].inputs@).contains(name) {
            rest.push((k - 1) as usize)
        } else {
            rest
        }
    }
}

/// The nodes that read the value `name`; the empty name is no value.
pub open spec fn consumers_of(ir: GraphIr, name: Seq<char>) -> Seq<usize> {
    if name.len() == 0 {
        Seq::empty()
    } else {
        readers(ir.nodes@, name, ir.nodes@.len() as int)
    }
}

/// Whether the graph gives the value `name` to its caller.
pub open spec fn is_output(ir: GraphIr, name: Seq<char>) -> bool {
    texts(ir.outputs@).contains(name)
}

/// Whether the value `name` is seen by others than the nodes that have it as an input: the
/// graph gives it to its caller, or a subgraph of some node reads it.
pub open spec fn escapes(ir: GraphIr, name: Seq<char>) -> bool {
    is_output(ir, name) || captured(ir.nodes@, name)
}

/// Whether the value `name` is seen by others than the nodes that have it as an input.
pub fn is_seen(ir: &GraphIr, name: &str) -> (r: bool)
    ensures
        r == escapes(*ir, name@),
{
    if has_name(&ir.outputs, name) {
        return true;
    }
    let names = captured_names(&ir.nodes);
    has_name(&names, name)
}

/// The node that reads `name`, where only one does and the value does not escape.
pub open spec fn sole_consumer(ir: GraphIr, name: Seq<char>) -> Option<usize> {
    if !escapes(ir, name) && consumers_of(ir, name).len() == 1 {
        Some(consumers_of(ir, name)[0])
    } else {
        None
    }
}

/// Readers are nodes that have the name among their inputs, ascending.
pub proof fn lemma_readers(nodes: Seq<NodeIr>, name: Seq<char>, k: int)
    requires
        0 <= k <= nodes.len(),
        nodes.len() <= usize::MAX,
    ensures
        forall|i: int|
            0 <= i < readers(nodes, name, k).len() ==> (#[trigger] readers(nodes, name, k)[i]) < k
                && texts(nodes[readers(nodes, name, k)[i] as int].inputs@).contains(name),
        forall|i: int, j: int|
            0 <= i < j < readers(nodes, name, k).len() ==> readers(nodes, name, k)[i] < readers(
                nodes,
                name,
                k,
            )[j],
        forall|v: int|
            0 <= v < k && texts((#[trigger] nodes[v]).inputs@).contains(name) ==> readers(
                nodes,
                name,
                k,
            ).contains(v as usize),
    decreases k,
{
    if k > 0 {
        lemma_readers(nodes, name, k - 1);
        let rest = readers(nodes, name, k - 1);
        let all = readers(nodes, name, k);
        assert forall|v: int|
            0 <= v < k && texts((#[trigger] nodes[v]).inputs@).contains(name) implies all.contains(
            v as usize,
        ) by {
            if v < k - 1 {
                let i = rest.index_of(v as usize);
                assert(all[i] == v as usize);
            } else {
                assert(all[rest.len() as int] == v as usize);
            }
        }
    }
}

/// The nodes that read `name`.
pub fn consumers(ir: &GraphIr, name: &str) -> (r: Vec<usize>)
    ensures
        r@ == consumers_of(*ir, name@),
        forall|i: int| 0 <= i < r@.len() ==> (#[trigger] r@[i]) < ir.nodes@.len(),
{
    let mut r: Vec<usize> = Vec::new();
    if name.is_empty() {
        return r;
    }
    let n: usize = ir.nodes.len();
    let mut i: usize = 0;
    while i < n
        invariant
            i <= n,
            n == ir.nodes@.len(),
            r@ == readers(ir.nodes@, name@, i as int),
            forall|k: int| 0 <= k < r@.len() ==> (#[trigger] r@[k]) < i,
        decreases n - i,
    {
        if has_name(&ir.nodes[i].inputs, name) {
            r.push(i);
        }
        i += 1;
    }
    r
}

/// The node that reads `name`, where only one does and the value does not escape.
pub fn only_consumer(ir: &GraphIr, name: &str) -> (r: Option<usize>)
    ensures
        r == sole_consumer(*ir, name@),
        r matches Some(i) ==> i < ir.nodes@.len(),
{
    let c = consumers(ir, name);
    if c.len() == 1 && !is_seen(ir, name) {
        Some(c[0])
    } else {
        None
    }
}

// --- who produces a value ---------------------------------------------------------------

/// The names that each node gives to its outputs.
pub open spec fn output_lists(nodes: Seq<NodeIr>) -> Seq<Seq<Seq<char>>> {
    nodes.map_values(|n: NodeIr| texts(n.outputs@))
}

/// The last node that produces `name`.
pub open spec fn producer_in(ir: GraphIr, name: Seq<char>) -> Option<usize> {
    producer_of(output_lists(ir.nodes@), name)
}

/// The last node that produces `name`.
pub fn producer(ir: &GraphIr, name: &str) -> (r: Option<usize>)
    ensures
        r == producer_in(*ir, name@),
        r matches Some(i) ==> i < ir.nodes@.len(),
{
    if name.is_empty() {
        return None;
    }
    let ghost outs = output_lists(ir.nodes@);
    let mut i: usize = ir.nodes.len();
    assert(outs.take(i as int) =~= outs);
    while i > 0
        invariant
            i <= ir.nodes@.len(),
            name@.len() > 0,
            outs == output_lists(ir.nodes@),
            producer_of(outs, name@) == producer_of(outs.take(i as int), name@),
        decreases i,
    {
        i -= 1;
        assert(outs.take(i + 1).drop_last() =~= outs.take(i as int));
        assert(outs.take(i + 1).last() == texts(ir.nodes@[i as int].outputs@));
        if has_name(&ir.nodes[i].outputs, name) {
            return Some(i);
        }
    }
    None
}

// --- constants --------------------------------------------------------------------------

/// The constant value of `name`: an initializer, or else what a `Constant` node gives.
pub open spec fn const_of(ir: GraphIr, name: Seq<char>) -> Option<TensorView> {
    if ir.initializers.has(name) {
        Some(ir.initializers.at(name)@)
    } else {
        constant_value(ir.nodes@, name)
    }
}

/// The constant value of `name`.
pub fn constant<'a>(ir: &'a GraphIr, name: &str) -> (r: Option<&'a InitializerIr>)
    ensures
        match r {
            Some(t) => const_of(*ir, name@) == Some(t@),
            None => const_of(*ir, name@) is None,
        },
{
    match ir.initializers.get(name) {
        Some(t) => Some(t),
        None => {
            let mut i: usize = ir.nodes.len();
            assert(ir.nodes@.take(i as int) =~= ir.nodes@);
            while i > 0
                invariant
                    i <= ir.nodes@.len(),
                    !ir.initializers.has(name@),
                    constant_value(ir.nodes@, name@) == constant_value(
                        ir.nodes@.take(i as int),
                        name@,
                    ),
                decreases i,
            {
                i -= 1;
                assert(ir.nodes@.take(i + 1).drop_last() =~= ir.nodes@.take(i as int));
                let node: &NodeIr = &ir.nodes[i];
                assert(ir.nodes@.take(i + 1).last() == *node);
                if node.is_standard("Constant") && node.outputs.len() > 0 && text::same(
                    node.outputs[0].as_str(),
                    name,
                ) {
                    match node.attrs.get("value") {
                        Some(v) => match v.as_tensor() {
                            Some(t) => {
                                return Some(t);
                            },
                            None => {},
                        },
                        None => {},
                    }
                }
            }
            None
        },
    }
}

/// The bits of a constant that is a single single-precision number.
pub open spec fn scalar_f32_of(ir: GraphIr, name: Seq<char>) -> Option<u32> {
    match const_of(ir, name) {
        Some(t) => match floats_of(t) {
            Ok(v) => if t.dtype == FLOAT && v.len() == 1 {
                Some(v[0])
            } else {
                None
            },
            Err(_) => None,
        },
        None => None,
    }
}

pub fn scalar_f32(ir: &GraphIr, name: &str) -> (r: Option<u32>)
    ensures
        r == scalar_f32_of(*ir, name@),
{
    match constant(ir, name) {
        Some(t) => {
            if t.dtype != FLOAT {
                return None;
            }
            match t.to_host().to_f32() {
                Ok(v) => if v.len() == 1 {
                    Some(v[0])
                } else {
                    None
                },
                Err(_) => None,
            }
        },
        None => None,
    }
}

/// The elements of a constant of 64-bit integers.
pub open spec fn int64_const_of(ir: GraphIr, name: Seq<char>) -> Option<Seq<i64>> {
    match const_of(ir, name) {
        Some(t) => match ints_of(t) {
            Ok(v) => if t.dtype == INT64 {
                Some(v)
            } else {
                None
            },
            Err(_) => None,
        },
        None => None,
    }
}

/// The elements of a constant of 64-bit integers.
pub fn int64_constant(ir: &GraphIr, name: &str) -> (r: Option<Vec<i64>>)
    ensures
        match r {
            Some(v) => int64_const_of(*ir, name@) == Some(v@),
            None => int64_const_of(*ir, name@) is None,
        },
{
    match constant(ir, name) {
        Some(t) => {
            if t.dtype != INT64 {
                return None;
            }
            match t.to_host().to_i64() {
                Ok(v) => Some(v),
                Err(_) => None,
            }
        },
        None => None,
    }
}

/// The tensor of one dimension with the elements `vals`.
pub open spec fn int_list(vals: Seq<i64>) -> TensorView {
    TensorView { dtype: INT64, shape: seq![vals.len() as i64], data: crate::bytes::all_le64(vals) }
}

/// The tensor of one dimension with the elements `vals`.
pub fn int64_init(vals: &[i64]) -> (r: InitializerIr)
    requires
        vals@.len() <= i64::MAX,
    ensures
        r@ == int_list(vals@),
{
    let mut shape: Vec<i64> = Vec::new();
    shape.push(vals.len() as i64);
    assert(shape@ =~= seq![vals@.len() as i64]);
    InitializerIr { dtype: INT64, shape, data: int_bytes(vals) }
}

// --- attributes -------------------------------------------------------------------------

/// The list of integers in the attribute `name`.
pub open spec fn ints_attr(node: NodeIr, name: Seq<char>) -> Option<Seq<i64>> {
    if node.attrs.has(name) && node.attrs.at(name) is Ints {
        Some((node.attrs.at(name)->Ints_0)@)
    } else {
        None
    }
}

/// The integer in the attribute `name`.
pub open spec fn int_attr_of(node: NodeIr, name: Seq<char>) -> Option<i64> {
    if node.attrs.has(name) && node.attrs.at(name) is Int {
        Some(node.attrs.at(name)->Int_0)
    } else {
        None
    }
}

pub fn attr_int(node: &NodeIr, name: &str) -> (r: Option<i64>)
    ensures
        r == int_attr_of(*node, name@),
{
    match node.attrs.get(name) {
        Some(v) => v.as_i64(),
        None => None,
    }
}

/// Whether the attribute `name` is the list `want`.
pub fn attr_ints_are(node: &NodeIr, name: &str, want: &[i64]) -> (r: bool)
    ensures
        r == (ints_attr(*node, name@) == Some(want@)),
{
    match node.attrs.get(name) {
        Some(v) => match v.as_ints() {
            Some(s) => crate::host_ops::select::same_dims(s, want),
            None => false,
        },
        None => false,
    }
}

// --- rebuilding the list of nodes -------------------------------------------------------

/// The first `k` nodes without those that are dropped, and with those that are replaced.
pub open spec fn rebuilt(
    nodes: Seq<NodeIr>,
    dropped: Seq<bool>,
    replaced: Seq<Option<NodeIr>>,
    k: int,
) -> Seq<NodeIr>
    decreases k,
{
    if k <= 0 {
        Seq::empty()
    } else {
        let rest = rebuilt(nodes, dropped, replaced, k - 1);
        if dropped[k - 1] {
            rest
        } else {
            match replaced[k - 1] {
                Some(n) => rest.push(n),
                None => rest.push(nodes[k - 1]),
            }
        }
    }
}

/// A list of nothing, one for each node.
pub open spec fn nothing(n: nat) -> Seq<Option<NodeIr>> {
    Seq::new(n, |i: int| None)
}

/// Where nothing is dropped or replaced the list stays as it is.
pub proof fn lemma_rebuilt_same(
    nodes: Seq<NodeIr>,
    dropped: Seq<bool>,
    replaced: Seq<Option<NodeIr>>,
    k: int,
)
    requires
        0 <= k <= nodes.len(),
        forall|i: int| 0 <= i < k ==> !(#[trigger] dropped[i]),
        forall|i: int| 0 <= i < k ==> (#[trigger] replaced[i]) is None,
    ensures
        rebuilt(nodes, dropped, replaced, k) == nodes.take(k),
    decreases k,
{
    if k > 0 {
        lemma_rebuilt_same(nodes, dropped, replaced, k - 1);
        assert(!dropped[k - 1]);
        assert(replaced[k - 1] is None);
        assert(nodes.take(k) =~= nodes.take(k - 1).push(nodes[k - 1]));
    } else {
        assert(nodes.take(0) =~= Seq::empty());
    }
}

pub proof fn lemma_rebuilt_len(
    nodes: Seq<NodeIr>,
    dropped: Seq<bool>,
    replaced: Seq<Option<NodeIr>>,
    k: int,
)
    requires
        0 <= k,
    ensures
        rebuilt(nodes, dropped, replaced, k).len() <= k,
    decreases k,
{
    if k > 0 {
        lemma_rebuilt_len(nodes, dropped, replaced, k - 1);
    }
}

/// `n` times nothing.
pub fn no_nodes(n: usize) -> (r: Vec<Option<NodeIr>>)
    ensures
        r@ == nothing(n as nat),
{
    let mut r: Vec<Option<NodeIr>> = Vec::new();
    let mut i: usize = 0;
    while i < n
        invariant
            i <= n,
            r@ == nothing(i as nat),
        decreases n - i,
    {
        r.push(None);
        i += 1;
        assert(r@ =~= nothing(i as nat));
    }
    r
}

/// Takes the nodes that are not dropped, or what replaces them.
pub fn rebuild(nodes: Vec<NodeIr>, dropped: &Vec<bool>, replaced: Vec<Option<NodeIr>>) -> (r: Vec<
    NodeIr,
>)
    requires
        dropped@.len() == nodes@.len(),
        replaced@.len() == nodes@.len(),
    ensures
        r@ == rebuilt(nodes@, dropped@, replaced@, nodes@.len() as int),
{
    let ghost all = nodes@;
    let ghost slots = replaced@;
    let mut nodes = nodes;
    let mut replaced = replaced;
    let mut stack: Vec<(Option<NodeIr>, NodeIr)> = Vec::new();
    let n: usize = nodes.len();
    let mut i: usize = n;
    while i > 0
        invariant
            i <= n,
            n == all.len(),
            n == slots.len(),
            nodes@ == all.take(i as int),
            replaced@ == slots.take(i as int),
            stack@.len() == n - i,
            forall|k: int|
                0 <= k < n - i ==> (#[trigger] stack@[k]).0 == slots[n - 1 - k] && stack@[k].1
                    == all[n - 1 - k],
        decreases i,
    {
        i -= 1;
        let a = replaced.pop();
        let b = nodes.pop();
        match (a, b) {
            (Some(x), Some(y)) => {
                stack.push((x, y));
            },
            _ => {
                assert(false);
            },
        }
        assert(nodes@ =~= all.take(i as int));
        assert(replaced@ =~= slots.take(i as int));
    }
    let mut out: Vec<NodeIr> = Vec::new();
    let mut i: usize = 0;
    while i < n
        invariant
            i <= n,
            n == all.len(),
            n == slots.len(),
            n == dropped@.len(),
            stack@.len() == n - i,
            forall|k: int|
                0 <= k < n - i ==> (#[trigger] stack@[k]).0 == slots[n - 1 - k] && stack@[k].1
                    == all[n - 1 - k],
            out@ == rebuilt(all, dropped@, slots, i as int),
        decreases n - i,
    {
        match stack.pop() {
            Some(e) => {
                assert(e.0 == slots[i as int] && e.1 == all[i as int]);
                if !dropped[i] {
                    match e.0 {
                        Some(x) => {
                            out.push(x);
                        },
                        None => {
                            out.push(e.1);
                        },
                    }
                }
            },
            None => {
                assert(false);
            },
        }
        i += 1;
    }
    out
}

// --- settings ---------------------------------------------------------------------------

/// Whether the folds of constant row selections and masks are on, given the value of
/// `ONNX_VULKAN_DF_FOLDS`: unless it is `0`.
pub fn df_folds_enabled(value: Option<&str>) -> (r: bool)
    ensures
        r == !(value matches Some(v) && v@ == "0"@),
{
    match value {
        Some(v) => !text::same(v, "0"),
        None => true,
    }
}

/// Whether a setting asks for something: it is there, not empty and not `0`.
pub open spec fn asked(value: Option<&str>) -> bool {
    value matches Some(v) && v@.len() > 0 && v@ != "0"@
}

fn is_asked(value: Option<&str>) -> (r: bool)
    ensures
        r == asked(value),
{
    match value {
        Some(v) => !v.is_empty() && !text::same(v, "0"),
        None => false,
    }
}

/// Whether attention takes over rearrangements, given the values of
/// `ONNX_VULKAN_GQA_QK_REORDER` and `LFM25_TRANSPOSE_FUSE`: where one of them asks for it.
pub fn gqa_qk_reorder_enabled(knob: Option<&str>, alias: Option<&str>) -> (r: bool)
    ensures
        r == (asked(knob) || asked(alias)),
{
    is_asked(knob) || is_asked(alias)
}

} // verus!
