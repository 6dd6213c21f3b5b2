//! Dropping what nothing reads.

use crate::graph::{AttrValue, GraphIr, InitializerIr, NodeIr};
use crate::rewrite::{has_name, no_nodes, nothing, rebuild, rebuilt};
use crate::text::texts;
use vstd::prelude::*;

verus! {

// --- what subgraphs read ----------------------------------------------------------------

/// Whether a node of the list gives `name` to one of its outputs.
pub open spec fn defines(nodes: Seq<NodeIr>, name: Seq<char>) -> bool {
    exists|i: int| 0 <= i < nodes.len() && texts((#[trigger] nodes[i]).outputs@).contains(name)
}

/// Whether a subgraph, or one within it, reads `name` from the graph around it: it declares
/// it as an input, or a node reads it and no node or input of the subgraph defines it.
pub open spec fn reads_free(g: GraphIr, name: Seq<char>) -> bool
    decreases g,
{
    ||| texts(g.inputs@).contains(name)
    ||| exists|i: int|
        0 <= i < g.nodes@.len() && name.len() > 0 && !defines(g.nodes@, name) && texts(
            (#[trigger] g.nodes@[i]).inputs@,
        ).contains(name)
    ||| exists|i: int, j: int|
        0 <= i < g.nodes@.len() && 0 <= j < g.nodes@[i].attrs.entries@.len()
            && match #[trigger] g.nodes@[i].attrs.entries@[j].1 {
            AttrValue::Graph(sub) => reads_free(*sub, name),
            _ => false,
        }
}

/// Whether a subgraph of one of the nodes reads `name` from the graph around it.
pub open spec fn captured(nodes: Seq<NodeIr>, name: Seq<char>) -> bool {
    exists|i: int, j: int|
        0 <= i < nodes.len() && 0 <= j < nodes[i].attrs.entries@.len()
            && match #[trigger] nodes[i].attrs.entries@[j].1 {
            AttrValue::Graph(sub) => reads_free(*sub, name),
            _ => false,
        }
}

/// Whether a subgraph of one attribute of the list reads `name`.
pub open spec fn attrs_read(entries: Seq<(String, AttrValue)>, k: int, name: Seq<char>) -> bool {
    exists|j: int|
        0 <= j < k && match (#[trigger] entries[j]).1 {
            AttrValue::Graph(sub) => reads_free(*sub, name),
            _ => false,
        }
}

/// Whether a subgraph of one of the first `k` nodes reads `name`.
pub open spec fn nodes_capture(nodes: Seq<NodeIr>, k: int, name: Seq<char>) -> bool {
    exists|i: int|
        0 <= i < k && attrs_read(
            (#[trigger] nodes[i]).attrs.entries@,
            nodes[i].attrs.entries@.len() as int,
            name,
        )
}

proof fn lemma_captured(nodes: Seq<NodeIr>, name: Seq<char>)
    ensures
        captured(nodes, name) == nodes_capture(nodes, nodes.len() as int, name),
{
    if captured(nodes, name) {
        let (i, j) = choose|i: int, j: int|
            0 <= i < nodes.len() && 0 <= j < nodes[i].attrs.entries@.len()
                && match #[trigger] nodes[i].attrs.entries@[j].1 {
                AttrValue::Graph(sub) => reads_free(*sub, name),
                _ => false,
            };
        assert(nodes[i].attrs.entries@[j].1 is Graph);
        assert(attrs_read(
            nodes[i].attrs.entries@,
            nodes[i].attrs.entries@.len() as int,
            name,
        ));
    }
    if nodes_capture(nodes, nodes.len() as int, name) {
        let i = choose|i: int|
            0 <= i < nodes.len() && attrs_read(
                (#[trigger] nodes[i]).attrs.entries@,
                nodes[i].attrs.entries@.len() as int,
                name,
            );
        let j = choose|j: int|
            0 <= j < nodes[i].attrs.entries@.len() && match (
            #[trigger] nodes[i].attrs.entries@[j]).1 {
                AttrValue::Graph(sub) => reads_free(*sub, name),
                _ => false,
            };
        assert(nodes[i].attrs.entries@[j].1 is Graph);
    }
}

proof fn lemma_reads_free(g: GraphIr, name: Seq<char>)
    ensures
        reads_free(g, name) == (texts(g.inputs@).contains(name) || free_inputs(
            g,
            g.nodes@.len() as int,
            name,
        ) || captured(g.nodes@, name)),
{
    if free_inputs(g, g.nodes@.len() as int, name) {
        let i = choose|i: int|
            0 <= i < g.nodes@.len() && name.len() > 0 && !defined_in(g, name) && texts(
                (#[trigger] g.nodes@[i]).inputs@,
            ).contains(name);
        if defines(g.nodes@, name) {
            assert(false);
        }
        assert(texts(g.nodes@[i].inputs@).contains(name));
    }
}

/// Whether an input or a node of the subgraph defines `name`.
pub open spec fn defined_in(g: GraphIr, name: Seq<char>) -> bool {
    texts(g.inputs@).contains(name) || defines(g.nodes@, name)
}

/// Whether one of the first `k` nodes reads `name`, which nothing in the subgraph defines.
pub open spec fn free_inputs(g: GraphIr, k: int, name: Seq<char>) -> bool {
    exists|i: int|
        0 <= i < k && name.len() > 0 && !defined_in(g, name) && texts(
            (#[trigger] g.nodes@[i]).inputs@,
        ).contains(name)
}

/// Whether the subgraph defines `name`.
fn is_defined(g: &GraphIr, name: &str) -> (r: bool)
    ensures
        r == defined_in(*g, name@),
{
    if has_name(&g.inputs, name) {
        return true;
    }
    let n: usize = g.nodes.len();
    let mut i: usize = 0;
    while i < n
        invariant
            i <= n,
            n == g.nodes@.len(),
            forall|k: int| 0 <= k < i ==> !texts((#[trigger] g.nodes@[k]).outputs@).contains(name@),
        decreases n - i,
    {
        if has_name(&g.nodes[i].outputs, name) {
            assert(texts(g.nodes@[i as int].outputs@).contains(name@));
            return true;
        }
        i += 1;
    }
    false
}

/// What a list of names gains when `name` is added.
proof fn lemma_push_name(list: Seq<String>, s: String, name: Seq<char>)
    ensures
        texts(list.push(s)).contains(name) == (texts(list).contains(name) || s@ == name),
{
    let now = texts(list.push(s));
    if texts(list).contains(name) {
        let i = texts(list).index_of(name);
        assert(now[i] == name);
    }
    if s@ == name {
        assert(now[list.len() as int] == name);
    }
    if now.contains(name) && s@ != name {
        let i = now.index_of(name);
        assert(texts(list)[i] == name);
    }
}

/// Adds to `out` the names that the subgraph, at any depth, reads from around it.
fn collect_free_reads(sub: &GraphIr, out: &mut Vec<String>)
    ensures
        forall|name: Seq<char>|
            #[trigger] texts(final(out)@).contains(name) == (texts(old(out)@).contains(name)
                || reads_free(*sub, name)),
    decreases sub,
{
    let ghost start = out@;
    let n: usize = sub.inputs.len();
    let mut i: usize = 0;
    while i < n
        invariant
            i <= n,
            n == sub.inputs@.len(),
            forall|name: Seq<char>|
                #[trigger] texts(out@).contains(name) == (texts(start).contains(name) || texts(
                    sub.inputs@.take(i as int),
                ).contains(name)),
        decreases n - i,
    {
        let ghost was = out@;
        out.push(sub.inputs[i].clone());
        proof {
            assert(sub.inputs@.take(i + 1) =~= sub.inputs@.take(i as int).push(
                sub.inputs@[i as int],
            ));
            assert forall|name: Seq<char>|
                #[trigger] texts(out@).contains(name) == (texts(start).contains(name) || texts(
                    sub.inputs@.take(i + 1),
                ).contains(name)) by {
                lemma_push_name(was, sub.inputs@[i as int], name);
                lemma_push_name(sub.inputs@.take(i as int), sub.inputs@[i as int], name);
                assert(texts(was).contains(name) == (texts(start).contains(name) || texts(
                    sub.inputs@.take(i as int),
                ).contains(name)));
            }
        }
        i += 1;
    }
    assert(sub.inputs@.take(n as int) =~= sub.inputs@);
    let n: usize = sub.nodes.len();
    let mut i: usize = 0;
    while i < n
        invariant
            i <= n,
            n == sub.nodes@.len(),
            forall|name: Seq<char>|
                #[trigger] texts(out@).contains(name) == (texts(start).contains(name) || texts(
                    sub.inputs@,
                ).contains(name) || free_inputs(*sub, i as int, name) || nodes_capture(
                    sub.nodes@,
                    i as int,
                    name,
                )),
        decreases n - i,
    {
        let node: &NodeIr = &sub.nodes[i];
        let ghost mid = out@;
        let m: usize = node.inputs.len();
        let mut j: usize = 0;
        while j < m
            invariant
                i < n,
                n == sub.nodes@.len(),
                *node == sub.nodes@[i as int],
                j <= m,
                m == node.inputs@.len(),
                forall|name: Seq<char>|
                    #[trigger] texts(out@).contains(name) == (texts(mid).contains(name) || (
                    name.len() > 0 && !defined_in(*sub, name) && texts(
                        node.inputs@.take(j as int),
                    ).contains(name))),
            decreases m - j,
        {
            let ghost was = out@;
            let name: &String = &node.inputs[j];
            assert(node.inputs@.take(j + 1) =~= node.inputs@.take(j as int).push(
                node.inputs@[j as int],
            ));
            if !name.as_str().is_empty() && !is_defined(sub, name.as_str()) {
                out.push(name.clone());
            }
            proof {
                assert forall|q: Seq<char>|
                    #[trigger] texts(out@).contains(q) == (texts(mid).contains(q) || (q.len() > 0
                        && !defined_in(*sub, q) && texts(node.inputs@.take(j + 1)).contains(q))) by {
                    lemma_push_name(was, *name, q);
                    lemma_push_name(node.inputs@.take(j as int), *name, q);
                    assert(texts(was).contains(q) == (texts(mid).contains(q) || (q.len() > 0
                        && !defined_in(*sub, q) && texts(node.inputs@.take(j as int)).contains(q))));
                }
            }
            j += 1;
        }
        assert(node.inputs@.take(m as int) =~= node.inputs@);
        let ghost late = out@;
        let m: usize = node.attrs.entries.len();
        let mut j: usize = 0;
        while j < m
            invariant
                i < n,
                n == sub.nodes@.len(),
                *node == sub.nodes@[i as int],
                j <= m,
                m == node.attrs.entries@.len(),
                forall|name: Seq<char>|
                    #[trigger] texts(out@).contains(name) == (texts(late).contains(name)
                        || attrs_read(node.attrs.entries@, j as int, name)),
            decreases m - j,
        {
            let ghost was = out@;
            match &node.attrs.entries[j].1 {
                AttrValue::Graph(nested) => {
                    proof {
                        assert(decreases_to!(*sub => sub.nodes));
                        assert(decreases_to!(sub.nodes => sub.nodes@[i as int]));
                        assert(decreases_to!(sub.nodes@[i as int] => sub.nodes@[i as int].attrs));
                        assert(decreases_to!(node.attrs => node.attrs.entries));
                        assert(decreases_to!(node.attrs.entries => node.attrs.entries@[j as int]));
                    }
                    collect_free_reads(nested, out);
                },
                _ => {},
            }
            proof {
                assert forall|q: Seq<char>|
                    #[trigger] texts(out@).contains(q) == (texts(late).contains(q) || attrs_read(
                        node.attrs.entries@,
                        j + 1,
                        q,
                    )) by {
                    assert(texts(was).contains(q) == (texts(late).contains(q) || attrs_read(
                        node.attrs.entries@,
                        j as int,
                        q,
                    )));
                    lemma_attrs_step(node.attrs.entries@, j as int, q);
                }
            }
            j += 1;
        }
        proof {
            assert forall|name: Seq<char>|
                #[trigger] texts(out@).contains(name) == (texts(start).contains(name) || texts(
                    sub.inputs@,
                ).contains(name) || free_inputs(*sub, i + 1, name) || nodes_capture(
                    sub.nodes@,
                    i + 1,
                    name,
                )) by {
                assert(texts(mid).contains(name) == (texts(start).contains(name) || texts(
                    sub.inputs@,
                ).contains(name) || free_inputs(*sub, i as int, name) || nodes_capture(
                    sub.nodes@,
                    i as int,
                    name,
                )));
                assert(texts(late).contains(name) == (texts(mid).contains(name) || (name.len() > 0
                    && !defined_in(*sub, name) && texts(node.inputs@).contains(name))));
                lemma_nodes_step(*sub, i as int, name);
            }
        }
        i += 1;
    }
    proof {
        assert forall|name: Seq<char>|
            #[trigger] texts(out@).contains(name) == (texts(start).contains(name) || reads_free(
                *sub,
                name,
            )) by {
            lemma_reads_free(*sub, name);
            lemma_captured(sub.nodes@, name);
        }
    }
}

proof fn lemma_attrs_step(entries: Seq<(String, AttrValue)>, j: int, name: Seq<char>)
    requires
        0 <= j < entries.len(),
    ensures
        attrs_read(entries, j + 1, name) == (attrs_read(entries, j, name) || match entries[j].1 {
            AttrValue::Graph(sub) => reads_free(*sub, name),
            _ => false,
        }),
{
    if attrs_read(entries, j, name) {
        let k = choose|k: int|
            0 <= k < j && match (#[trigger] entries[k]).1 {
                AttrValue::Graph(sub) => reads_free(*sub, name),
                _ => false,
            };
        assert(0 <= k < j + 1);
    }
}

proof fn lemma_nodes_step(g: GraphIr, i: int, name: Seq<char>)
    requires
        0 <= i < g.nodes@.len(),
    ensures
        nodes_capture(g.nodes@, i + 1, name) == (nodes_capture(g.nodes@, i, name) || attrs_read(
            g.nodes@[i].attrs.entries@,
            g.nodes@[i].attrs.entries@.len() as int,
            name,
        )),
        free_inputs(g, i + 1, name) == (free_inputs(g, i, name) || (name.len() > 0 && !defined_in(
            g,
            name,
        ) && texts(g.nodes@[i].inputs@).contains(name))),
{
    if nodes_capture(g.nodes@, i, name) {
        let k = choose|k: int|
            0 <= k < i && attrs_read(
                (#[trigger] g.nodes@[k]).attrs.entries@,
                g.nodes@[k].attrs.entries@.len() as int,
                name,
            );
        assert(0 <= k < i + 1);
    }
    if free_inputs(g, i, name) {
        let k = choose|k: int|
            0 <= k < i && name.len() > 0 && !defined_in(g, name) && texts(
                (#[trigger] g.nodes@[k]).inputs@,
            ).contains(name);
        assert(0 <= k < i + 1);
    }
}

/// Whether a subgraph of the node reads `name` from the graph around it.
pub open spec fn node_captures(node: NodeIr, name: Seq<char>) -> bool {
    attrs_read(node.attrs.entries@, node.attrs.entries@.len() as int, name)
}

/// Adds to `out` the names that the subgraphs of the node read from the graph around it.
pub fn add_captures(node: &NodeIr, out: &mut Vec<String>)
    ensures
        forall|name: Seq<char>|
            #[trigger] texts(final(out)@).contains(name) == (texts(old(out)@).contains(name)
                || node_captures(*node, name)),
{
    let ghost start = out@;
    let m: usize = node.attrs.entries.len();
    let mut j: usize = 0;
    while j < m
        invariant
            j <= m,
            m == node.attrs.entries@.len(),
            forall|name: Seq<char>|
                #[trigger] texts(out@).contains(name) == (texts(start).contains(name)
                    || attrs_read(node.attrs.entries@, j as int, name)),
        decreases m - j,
    {
        let ghost was = out@;
        match &node.attrs.entries[j].1 {
            AttrValue::Graph(nested) => {
                collect_free_reads(nested, out);
            },
            _ => {},
        }
        proof {
            assert forall|q: Seq<char>|
                #[trigger] texts(out@).contains(q) == (texts(start).contains(q) || attrs_read(
                    node.attrs.entries@,
                    j + 1,
                    q,
                )) by {
                assert(texts(was).contains(q) == (texts(start).contains(q) || attrs_read(
                    node.attrs.entries@,
                    j as int,
                    q,
                )));
                lemma_attrs_step(node.attrs.entries@, j as int, q);
            }
        }
        j += 1;
    }
}

/// The names that the subgraphs of the nodes read from this graph.
pub fn captured_names(nodes: &Vec<NodeIr>) -> (r: Vec<String>)
    ensures
        forall|name: Seq<char>| #[trigger] texts(r@).contains(name) == captured(nodes@, name),
{
    let mut out: Vec<String> = Vec::new();
    let n: usize = nodes.len();
    let mut i: usize = 0;
    while i < n
        invariant
            i <= n,
            n == nodes@.len(),
            forall|name: Seq<char>|
                #[trigger] texts(out@).contains(name) == nodes_capture(nodes@, i as int, name),
        decreases n - i,
    {
        let ghost was = out@;
        add_captures(&nodes[i], &mut out);
        proof {
            assert forall|name: Seq<char>|
                #[trigger] texts(out@).contains(name) == nodes_capture(nodes@, i + 1, name) by {
                assert(texts(was).contains(name) == nodes_capture(nodes@, i as int, name));
                if nodes_capture(nodes@, i as int, name) {
                    let k = choose|k: int|
                        0 <= k < i && attrs_read(
                            (#[trigger] nodes@[k]).attrs.entries@,
                            nodes@[k].attrs.entries@.len() as int,
                            name,
                        );
                    assert(0 <= k < i + 1 && nodes@[k] == nodes@[k]);
                }
                if node_captures(nodes@[i as int], name) {
                    assert(attrs_read(
                        nodes@[i as int].attrs.entries@,
                        nodes@[i as int].attrs.entries@.len() as int,
                        name,
                    ));
                }
            }
        }
        i += 1;
    }
    proof {
        assert forall|name: Seq<char>|
            #[trigger] texts(out@).contains(name) == captured(nodes@, name) by {
            lemma_captured(nodes@, name);
        }
    }
    out
}

// --- initializers -----------------------------------------------------------------------

/// Whether one of the nodes reads `name`.
pub open spec fn is_read(nodes: Seq<NodeIr>, name: Seq<char>) -> bool {
    exists|i: int| 0 <= i < nodes.len() && texts((#[trigger] nodes[i]).inputs@).contains(name)
}

/// Whether the value `name` is needed: a node or a subgraph reads it, or the graph gives it to
/// its caller.
pub open spec fn is_live(nodes: Seq<NodeIr>, outputs: Seq<String>, name: Seq<char>) -> bool {
    is_read(nodes, name) || texts(outputs).contains(name) || captured(nodes, name)
}

fn read_by_any(nodes: &Vec<NodeIr>, name: &str) -> (r: bool)
    ensures
        r == is_read(nodes@, name@),
{
    let n: usize = nodes.len();
    let mut i: usize = 0;
    while i < n
        invariant
            i <= n,
            n == nodes@.len(),
            forall|k: int| 0 <= k < i ==> !texts((#[trigger] nodes@[k]).inputs@).contains(name@),
        decreases n - i,
    {
        if has_name(&nodes[i].inputs, name) {
            assert(texts(nodes@[i as int].inputs@).contains(name@));
            return true;
        }
        i += 1;
    }
    false
}

/// The bytes of the initializers among the first `k` that nothing needs.
pub open spec fn dead_bytes(
    entries: Seq<(String, InitializerIr)>,
    nodes: Seq<NodeIr>,
    outputs: Seq<String>,
    k: int,
) -> int
    decreases k,
{
    if k <= 0 {
        0
    } else {
        dead_bytes(entries, nodes, outputs, k - 1) + if is_live(
            nodes,
            outputs,
            entries[k - 1].0@,
        ) {
            0int
        } else {
            entries[k - 1].1.data@.len() as int
        }
    }
}

proof fn lemma_dead_bytes_grow(
    entries: Seq<(String, InitializerIr)>,
    nodes: Seq<NodeIr>,
    outputs: Seq<String>,
    a: int,
    b: int,
)
    requires
        0 <= a <= b,
    ensures
        0 <= dead_bytes(entries, nodes, outputs, a) <= dead_bytes(entries, nodes, outputs, b),
    decreases b,
{
    if a < b {
        lemma_dead_bytes_grow(entries, nodes, outputs, a, b - 1);
    } else if b > 0 {
        lemma_dead_bytes_grow(entries, nodes, outputs, b - 1, b - 1);
    }
}

/// `n`, or the largest number that a `usize` holds.
pub open spec fn capped(n: int) -> int {
    if n <= usize::MAX {
        n
    } else {
        usize::MAX as int
    }
}

/// Whether a graph is another without the initializers that nothing needs, of `r` bytes.
pub open spec fn initializers_pruned(before: GraphIr, after: GraphIr, r: int) -> bool {
    &&& after.nodes == before.nodes
    &&& after.inputs == before.inputs
    &&& after.outputs == before.outputs
    &&& after.initializers.wf()
    &&& forall|name: Seq<char>|
        #[trigger] after.initializers.has(name) == (before.initializers.has(name)
            && is_live(before.nodes@, before.outputs@, name))
    &&& forall|name: Seq<char>|
        after.initializers.has(name) ==> #[trigger] after.initializers.at(name) == before.initializers.at(name)
    &&& r == capped(
        dead_bytes(
            before.initializers.entries@,
            before.nodes@,
            before.outputs@,
            before.initializers.entries@.len() as int,
        ),
    )
}

/// Drops the initializers that nothing needs. Returns the bytes released, or the largest number
/// where they are more.
pub fn prune_dead_initializers(ir: &mut GraphIr) -> (r: usize)
    requires
        old(ir).initializers.wf(),
    ensures
        initializers_pruned(*old(ir), *final(ir), r as int),
{
    let ghost nodes = ir.nodes@;
    let ghost outputs = ir.outputs@;
    let ghost was = ir.initializers;
    let ghost entries = ir.initializers.entries@;
    let names = captured_names(&ir.nodes);
    let n: usize = ir.initializers.entries.len();
    let mut dead: Vec<String> = Vec::new();
    let mut released: usize = 0;
    let mut i: usize = 0;
    while i < n
        invariant
            i <= n,
            n == entries.len(),
            *ir == *old(ir),
            entries == ir.initializers.entries@,
            nodes == ir.nodes@,
            outputs == ir.outputs@,
            forall|name: Seq<char>| #[trigger] texts(names@).contains(name) == captured(nodes, name),
            forall|name: Seq<char>|
                #[trigger] texts(dead@).contains(name) == exists|k: int|
                    0 <= k < i && (#[trigger] entries[k]).0@ == name && !is_live(
                        nodes,
                        outputs,
                        name,
                    ),
            released == capped(dead_bytes(entries, nodes, outputs, i as int)),
        decreases n - i,
    {
        let ghost before = dead@;
        let name: &String = &ir.initializers.entries[i].0;
        let live = read_by_any(&ir.nodes, name.as_str()) || has_name(&ir.outputs, name.as_str())
            || has_name(&names, name.as_str());
        proof {
            assert(texts(names@).contains(name@) == captured(nodes, name@));
            assert(live == is_live(nodes, outputs, name@));
            lemma_dead_bytes_grow(entries, nodes, outputs, i as int, i + 1);
        }
        if !live {
            released = match released.checked_add(ir.initializers.entries[i].1.data.len()) {
                Some(sum) => sum,
                None => usize::MAX,
            };
            dead.push(name.clone());
        }
        proof {
            assert forall|q: Seq<char>|
                #[trigger] texts(dead@).contains(q) == exists|k: int|
                    0 <= k < i + 1 && (#[trigger] entries[k]).0@ == q && !is_live(
                        nodes,
                        outputs,
                        q,
                    ) by {
                lemma_push_name(before, *name, q);
                assert(texts(before).contains(q) == exists|k: int|
                    0 <= k < i && (#[trigger] entries[k]).0@ == q && !is_live(nodes, outputs, q));
                assert(entries[i as int].0@ == name@);
            }
        }
        i += 1;
    }
    proof {
        assert forall|q: Seq<char>|
            #[trigger] texts(dead@).contains(q) == (was.has(q) && !is_live(nodes, outputs, q)) by {
            if was.has(q) {
                let k = was.lemma_has(q);
                assert(entries[k].0@ == q);
            }
            if texts(dead@).contains(q) {
                let k = choose|k: int|
                    0 <= k < n && (#[trigger] entries[k]).0@ == q && !is_live(nodes, outputs, q);
                was.lemma_entry(k);
            }
        }
    }
    let m: usize = dead.len();
    let mut j: usize = 0;
    while j < m
        invariant
            j <= m,
            m == dead@.len(),
            ir.nodes == old(ir).nodes,
            ir.inputs == old(ir).inputs,
            ir.outputs == old(ir).outputs,
            was == old(ir).initializers,
            ir.initializers.wf(),
            forall|name: Seq<char>|
                #[trigger] ir.initializers.has(name) == (was.has(name) && !texts(
                    dead@.take(j as int),
                ).contains(name)),
            forall|name: Seq<char>|
                ir.initializers.has(name) ==> #[trigger] ir.initializers.at(name) == was.at(name),
        decreases m - j,
    {
        let ghost mid = ir.initializers;
        let _gone = ir.initializers.remove(dead[j].as_str());
        proof {
            assert(dead@.take(j + 1) =~= dead@.take(j as int).push(dead@[j as int]));
            assert forall|name: Seq<char>|
                #[trigger] ir.initializers.has(name) == (was.has(name) && !texts(
                    dead@.take(j + 1),
                ).contains(name)) by {
                lemma_push_name(dead@.take(j as int), dead@[j as int], name);
                assert(mid.has(name) == (was.has(name) && !texts(dead@.take(j as int)).contains(
                    name,
                )));
            }
            assert forall|name: Seq<char>|
                ir.initializers.has(name) implies #[trigger] ir.initializers.at(name) == was.at(
                name,
            ) by {
                assert(mid.has(name));
                assert(mid.at(name) == was.at(name));
            }
        }
        j += 1;
    }
    assert(dead@.take(m as int) =~= dead@);
    released
}

// --- nodes ------------------------------------------------------------------------------

/// Whether a node gives a value that is needed.
pub open spec fn is_needed(nodes: Seq<NodeIr>, outputs: Seq<String>, node: NodeIr) -> bool {
    exists|k: int|
        0 <= k < node.outputs@.len() && (#[trigger] node.outputs@[k])@.len() > 0 && is_live(
            nodes,
            outputs,
            node.outputs@[k]@,
        )
}

/// The nodes among the first `k` that give a value that is needed.
pub open spec fn needed(nodes: Seq<NodeIr>, outputs: Seq<String>, k: int) -> Seq<NodeIr>
    decreases k,
{
    if k <= 0 {
        Seq::empty()
    } else {
        let rest = needed(nodes, outputs, k - 1);
        if is_needed(nodes, outputs, nodes[k - 1]) {
            rest.push(nodes[k - 1])
        } else {
            rest
        }
    }
}

/// One round: the nodes that give a value that is needed.
pub open spec fn prune_round(nodes: Seq<NodeIr>, outputs: Seq<String>) -> Seq<NodeIr> {
    needed(nodes, outputs, nodes.len() as int)
}

/// The nodes after `k` rounds.
pub open spec fn prune_rounds(nodes: Seq<NodeIr>, outputs: Seq<String>, k: nat) -> Seq<NodeIr>
    decreases k,
{
    if k == 0 {
        nodes
    } else {
        prune_round(prune_rounds(nodes, outputs, (k - 1) as nat), outputs)
    }
}

/// Whether `left` is where the rounds come to rest.
pub open spec fn prunes_to(nodes: Seq<NodeIr>, outputs: Seq<String>, left: Seq<NodeIr>) -> bool {
    prune_round(left, outputs) == left && exists|k: nat|
        left == #[trigger] prune_rounds(nodes, outputs, k)
}

proof fn lemma_needed_len(nodes: Seq<NodeIr>, outputs: Seq<String>, k: int)
    requires
        0 <= k <= nodes.len(),
    ensures
        needed(nodes, outputs, k).len() <= k,
        needed(nodes, outputs, k).len() == k ==> needed(nodes, outputs, k) == nodes.take(k) && forall|
            i: int,
        |
            0 <= i < k ==> is_needed(nodes, outputs, #[trigger] nodes[i]),
    decreases k,
{
    if k > 0 {
        lemma_needed_len(nodes, outputs, k - 1);
        assert(nodes.take(k) =~= nodes.take(k - 1).push(nodes[k - 1]));
    } else {
        assert(nodes.take(0) =~= Seq::empty());
    }
}

/// A node that gives a value that is needed outlasts the round.
pub proof fn law_prune_keeps(nodes: Seq<NodeIr>, outputs: Seq<String>, i: int)
    requires
        0 <= i < nodes.len(),
        is_needed(nodes, outputs, nodes[i]),
    ensures
        prune_round(nodes, outputs).contains(nodes[i]),
{
    lemma_needed_holds(nodes, outputs, nodes.len() as int, i);
}

proof fn lemma_needed_holds(nodes: Seq<NodeIr>, outputs: Seq<String>, k: int, i: int)
    requires
        0 <= i < k <= nodes.len(),
        is_needed(nodes, outputs, nodes[i]),
    ensures
        needed(nodes, outputs, k).contains(nodes[i]),
    decreases k,
{
    let all = needed(nodes, outputs, k);
    let rest = needed(nodes, outputs, k - 1);
    if i < k - 1 {
        lemma_needed_holds(nodes, outputs, k - 1, i);
        let j = rest.index_of(nodes[i]);
        assert(all[j] == nodes[i]);
    } else {
        assert(all[rest.len() as int] == nodes[i]);
    }
}

/// A node that gives a value to the graph's caller outlasts every round.
pub proof fn law_prune_keeps_outputs(
    nodes: Seq<NodeIr>,
    outputs: Seq<String>,
    k: nat,
    i: int,
    o: int,
)
    requires
        0 <= i < nodes.len(),
        0 <= o < nodes[i].outputs@.len(),
        nodes[i].outputs@[o]@.len() > 0,
        texts(outputs).contains(nodes[i].outputs@[o]@),
    ensures
        prune_rounds(nodes, outputs, k).contains(nodes[i]),
    decreases k,
{
    if k == 0 {
        assert(nodes[i] == nodes[i]);
    } else {
        law_prune_keeps_outputs(nodes, outputs, (k - 1) as nat, i, o);
        let before = prune_rounds(nodes, outputs, (k - 1) as nat);
        let j = before.index_of(nodes[i]);
        assert(is_live(before, outputs, before[j].outputs@[o]@));
        assert(is_needed(before, outputs, before[j]));
        law_prune_keeps(before, outputs, j);
    }
}

/// Where the rounds come to rest every node gives a value that is needed.
pub proof fn law_prune_rest(nodes: Seq<NodeIr>, outputs: Seq<String>, i: int)
    requires
        prune_round(nodes, outputs) == nodes,
        0 <= i < nodes.len(),
    ensures
        is_needed(nodes, outputs, nodes[i]),
{
    lemma_needed_len(nodes, outputs, nodes.len() as int);
}

/// Whether the node gives a value that is needed.
fn gives_needed(nodes: &Vec<NodeIr>, outputs: &Vec<String>, names: &Vec<String>, node: &NodeIr) -> (r: bool)
    requires
        forall|name: Seq<char>| #[trigger] texts(names@).contains(name) == captured(nodes@, name),
    ensures
        r == is_needed(nodes@, outputs@, *node),
{
    let n: usize = node.outputs.len();
    let mut k: usize = 0;
    while k < n
        invariant
            k <= n,
            n == node.outputs@.len(),
            forall|name: Seq<char>|
                #[trigger] texts(names@).contains(name) == captured(nodes@, name),
            forall|j: int|
                0 <= j < k ==> !((#[trigger] node.outputs@[j])@.len() > 0 && is_live(
                    nodes@,
                    outputs@,
                    node.outputs@[j]@,
                )),
        decreases n - k,
    {
        let name: &String = &node.outputs[k];
        assert(texts(names@).contains(name@) == captured(nodes@, name@));
        if !name.as_str().is_empty() && (has_name(outputs, name.as_str()) || read_by_any(
            nodes,
            name.as_str(),
        ) || has_name(names, name.as_str())) {
            assert(is_live(nodes@, outputs@, node.outputs@[k as int]@));
            return true;
        }
        k += 1;
    }
    false
}

proof fn lemma_rebuilt_needed(nodes: Seq<NodeIr>, outputs: Seq<String>, dropped: Seq<bool>, k: int)
    requires
        0 <= k <= nodes.len(),
        forall|i: int| 0 <= i < k ==> #[trigger] dropped[i] == !is_needed(nodes, outputs, nodes[i]),
    ensures
        rebuilt(nodes, dropped, nothing(nodes.len()), k) == needed(nodes, outputs, k),
    decreases k,
{
    if k > 0 {
        lemma_rebuilt_needed(nodes, outputs, dropped, k - 1);
        assert(dropped[k - 1] == !is_needed(nodes, outputs, nodes[k - 1]));
    }
}

/// Whether a graph is another without the nodes that nothing needs, `r` of them.
pub open spec fn nodes_pruned(before: GraphIr, after: GraphIr, r: int) -> bool {
    &&& after.initializers == before.initializers
    &&& after.inputs == before.inputs
    &&& after.outputs == before.outputs
    &&& prunes_to(before.nodes@, before.outputs@, after.nodes@)
    &&& r + after.nodes@.len() == before.nodes@.len()
}

/// Drops the nodes whose values nothing needs, round by round, until none is left. Returns how
/// many were dropped.
pub fn prune_dead_nodes(ir: &mut GraphIr) -> (r: usize)
    ensures
        nodes_pruned(*old(ir), *final(ir), r as int),
{
    let ghost all = ir.nodes@;
    let total: usize = ir.nodes.len();
    let ghost mut k: nat = 0;
    let mut changed = true;
    while changed
        invariant
            total == all.len(),
            all == old(ir).nodes@,
            ir.initializers == old(ir).initializers,
            ir.inputs == old(ir).inputs,
            ir.outputs == old(ir).outputs,
            ir.nodes@ == prune_rounds(all, ir.outputs@, k),
            ir.nodes@.len() <= total,
            !changed ==> prune_round(ir.nodes@, ir.outputs@) == ir.nodes@,
        decreases ir.nodes@.len(), changed as int,
    {
        let ghost here = ir.nodes@;
        let n: usize = ir.nodes.len();
        let names = captured_names(&ir.nodes);
        let mut dropped: Vec<bool> = Vec::new();
        let mut i: usize = 0;
        while i < n
            invariant
                i <= n,
                n == ir.nodes@.len(),
                ir.nodes@ == here,
                forall|name: Seq<char>|
                    #[trigger] texts(names@).contains(name) == captured(here, name),
                dropped@.len() == i,
                forall|j: int|
                    0 <= j < i ==> #[trigger] dropped@[j] == !is_needed(here, ir.outputs@, here[j]),
            decreases n - i,
        {
            let keep = gives_needed(&ir.nodes, &ir.outputs, &names, &ir.nodes[i]);
            dropped.push(!keep);
            i += 1;
        }
        let mut taken: Vec<NodeIr> = Vec::new();
        core::mem::swap(&mut taken, &mut ir.nodes);
        proof {
            lemma_rebuilt_needed(here, ir.outputs@, dropped@, n as int);
            lemma_needed_len(here, ir.outputs@, n as int);
            k = k + 1;
        }
        ir.nodes = rebuild(taken, &dropped, no_nodes(n));
        proof {
            assert(here.take(n as int) =~= here);
            assert(ir.nodes@ == prune_round(here, ir.outputs@));
        }
        changed = ir.nodes.len() != n;
    }
    total - ir.nodes.len()
}

} // verus!
