//! What a run makes of plans, results and branches.

use crate::device::{DeviceBuffer, Tensor};
use crate::execution::ExecutionEnv;
use crate::graph::{AttrValue, GraphIr, NodeIr};
use crate::interp::carry_out::{due_of, left_by, slot_handle, Made};
use crate::interp::run::{
    branch_of, kept_names, kept_results, moved, named, wanted, without, Values,
};
use crate::interp::work::device_in;
use crate::plan::{CommandView, ProducedView, Slot, Storage};
use crate::rewrite::prune::{captured, defines, is_live, node_captures, reads_free};
use crate::text::{name_lists, texts};
use vstd::prelude::*;

verus! {

// --- names ------------------------------------------------------------------------------

/// **A list of names is all of its names, in order.**
pub proof fn law_texts(v: Seq<String>, i: int)
    requires
        0 <= i < v.len(),
    ensures
        texts(v).len() == v.len(),
        texts(v)[i] == v[i]@,
        texts(v).contains(v[i]@),
{
    assert(texts(v)[i] == v[i]@);
}

/// **Lists of names are all of their lists, with all of their names.**
pub proof fn law_name_lists(v: Seq<Vec<String>>, i: int, j: int)
    requires
        0 <= i < v.len(),
        0 <= j < v[i]@.len(),
    ensures
        name_lists(v).len() == v.len(),
        name_lists(v)[i].len() == v[i]@.len(),
        name_lists(v)[i][j] == v[i]@[j]@,
{
}

// --- subgraphs --------------------------------------------------------------------------

/// **A subgraph captures what it reads from outside**: a node within it that reads a name which
/// nothing in the subgraph makes reads it from the graph around, under whichever attribute the
/// subgraph stands; so does one that declares it as an input; and what a subgraph reads is needed.
pub proof fn law_subgraph_captures(
    nodes: Seq<NodeIr>,
    outputs: Seq<String>,
    i: int,
    a: int,
    sub: GraphIr,
    name: Seq<char>,
)
    requires
        0 <= i < nodes.len(),
        0 <= a < nodes[i].attrs.entries@.len(),
        nodes[i].attrs.entries@[a].1 matches AttrValue::Graph(g) && *g == sub,
        texts(sub.inputs@).contains(name) || (name.len() > 0 && !defines(sub.nodes@, name) && exists|
            j: int,
        |
            0 <= j < sub.nodes@.len() && texts((#[trigger] sub.nodes@[j]).inputs@).contains(name)),
    ensures
        reads_free(sub, name),
        node_captures(nodes[i], name),
        captured(nodes, name),
        is_live(nodes, outputs, name),
{
    assert(reads_free(sub, name));
    let e = nodes[i].attrs.entries@[a];
    assert(e.1 is Graph);
}

// --- plans ------------------------------------------------------------------------------

/// **A slot stands for the buffer of its role**: that of the input of this number, of the output, of
/// the plan's own, or the one that holds a zero.
pub proof fn law_slot_buffers(env: ExecutionEnv, node: NodeIr, made: Made, i: usize)
    ensures
        device_in(env, node, i as int) matches Some(d) ==> slot_handle(
            env,
            node,
            made,
            Slot::Input(i),
        ) == Some(d.buf.handle()),
        device_in(env, node, i as int) is None ==> slot_handle(env, node, made, Slot::Input(i))
            is None,
        i < made.outputs@.len() ==> slot_handle(env, node, made, Slot::Output(i)) == Some(
            made.outputs@[i as int],
        ),
        i < made.scratch@.len() ==> slot_handle(env, node, made, Slot::Scratch(i)) == Some(
            made.scratch@[i as int],
        ),
        slot_handle(env, node, made, Slot::Zero) == Some(made.zero),
{
}

/// **Commands run in their order**; one that fills a buffer which is kept runs only where the
/// buffer was not there.
pub proof fn law_due_commands(commands: Seq<CommandView>, there: Seq<Option<u64>>, k: int)
    requires
        0 <= k < commands.len(),
    ensures
        ({
            let before = due_of(commands, there, k);
            let after = due_of(commands, there, k + 1);
            match commands[k] {
                CommandView::Once(i, d) => if 0 <= i < there.len() && there[i] is Some {
                    after == before
                } else {
                    after.len() == before.len() + 1 && after.last() == CommandView::Run(d)
                        && after.drop_last() == before
                },
                c => after.len() == before.len() + 1 && after.last() == c && after.drop_last()
                    == before,
            }
        }),
{
    let before = due_of(commands, there, k);
    let after = due_of(commands, there, k + 1);
    if after.len() > before.len() {
        assert(after.drop_last() =~= before);
    }
}

/// **A tensor is left as the plan says**: of its type, shape and size, in the buffer that was made
/// for it, which the run owns, or in one that is kept, which it does not.
pub proof fn law_left_tensor(p: ProducedView, own: u64, scratch: Seq<u64>)
    requires
        0 <= p.elem_count <= usize::MAX,
    ensures
        left_by(p, own, scratch).dtype == p.dtype,
        left_by(p, own, scratch).shape == p.shape,
        left_by(p, own, scratch).elem_count == p.elem_count,
        match p.storage {
            Storage::New(_) => left_by(p, own, scratch).buf == DeviceBuffer::Owned(own),
            Storage::Scratch(i) => left_by(p, own, scratch).buf == DeviceBuffer::Borrowed(
                scratch[i as int],
            ),
        },
{
}

// --- results ----------------------------------------------------------------------------

/// **Result `j` gets the name of output `j`**, where it is asked for and no later output has the
/// same name; values under other names stay.
pub proof fn law_results_are_named(
    values: Values,
    names: Seq<Seq<char>>,
    tensors: Seq<Tensor>,
    n: int,
    j: int,
    other: Seq<char>,
)
    requires
        0 <= j < n <= tensors.len(),
        wanted(names, j),
        forall|k: int| j < k < n && wanted(names, k) ==> #[trigger] names[k] != names[j],
        forall|k: int| 0 <= k < n && wanted(names, k) ==> #[trigger] names[k] != other,
    ensures
        ({
            let kn = kept_names(names, n);
            let kr = kept_results(names, tensors, n);
            let after = named(values, kn, kr, kn.len() as int);
            &&& kn.len() == kr.len()
            &&& after.contains_key(names[j])
            &&& after[names[j]] == tensors[j]
            &&& after.contains_key(other) == values.contains_key(other)
            &&& values.contains_key(other) ==> after[other] == values[other]
        }),
    decreases n,
{
    lemma_kept(values, names, tensors, n, j);
    lemma_others(values, names, tensors, n, other);
}

proof fn lemma_named_prefix(
    values: Values,
    names: Seq<Seq<char>>,
    tensors: Seq<Tensor>,
    more: Seq<Seq<char>>,
    others: Seq<Tensor>,
    k: int,
)
    requires
        0 <= k <= names.len(),
        k <= tensors.len(),
        names.len() <= more.len(),
        tensors.len() <= others.len(),
        forall|i: int| 0 <= i < k ==> #[trigger] names[i] == more[i],
        forall|i: int| 0 <= i < k ==> #[trigger] tensors[i] == others[i],
    ensures
        named(values, names, tensors, k) == named(values, more, others, k),
    decreases k,
{
    if k > 0 {
        lemma_named_prefix(values, names, tensors, more, others, k - 1);
        assert(names[k - 1] == more[k - 1] && tensors[k - 1] == others[k - 1]);
    }
}

proof fn lemma_kept_len(names: Seq<Seq<char>>, tensors: Seq<Tensor>, n: int)
    ensures
        kept_names(names, n).len() == kept_results(names, tensors, n).len(),
    decreases n,
{
    if n > 0 {
        lemma_kept_len(names, tensors, n - 1);
    }
}

proof fn lemma_kept(
    values: Values,
    names: Seq<Seq<char>>,
    tensors: Seq<Tensor>,
    n: int,
    j: int,
)
    requires
        0 <= j < n <= tensors.len(),
        wanted(names, j),
        forall|k: int| j < k < n && wanted(names, k) ==> #[trigger] names[k] != names[j],
    ensures
        ({
            let kn = kept_names(names, n);
            let after = named(values, kn, kept_results(names, tensors, n), kn.len() as int);
            after.contains_key(names[j]) && after[names[j]] == tensors[j]
        }),
    decreases n,
{
    let kn = kept_names(names, n);
    let kr = kept_results(names, tensors, n);
    let rn = kept_names(names, n - 1);
    let rr = kept_results(names, tensors, n - 1);
    lemma_kept_len(names, tensors, n - 1);
    if j < n - 1 {
        lemma_kept(values, names, tensors, n - 1, j);
        if wanted(names, n - 1) {
            assert(names[n - 1] != names[j]);
            lemma_named_prefix(values, rn, rr, kn, kr, rn.len() as int);
        }
    }
}

proof fn lemma_others(
    values: Values,
    names: Seq<Seq<char>>,
    tensors: Seq<Tensor>,
    n: int,
    other: Seq<char>,
)
    requires
        0 <= n <= tensors.len(),
        forall|k: int| 0 <= k < n && wanted(names, k) ==> #[trigger] names[k] != other,
    ensures
        ({
            let kn = kept_names(names, n);
            let after = named(values, kn, kept_results(names, tensors, n), kn.len() as int);
            &&& kn.len() == kept_results(names, tensors, n).len()
            &&& after.contains_key(other) == values.contains_key(other)
            &&& values.contains_key(other) ==> after[other] == values[other]
        }),
    decreases n,
{
    if n > 0 {
        let kn = kept_names(names, n);
        let kr = kept_results(names, tensors, n);
        let rn = kept_names(names, n - 1);
        let rr = kept_results(names, tensors, n - 1);
        lemma_others(values, names, tensors, n - 1, other);
        if wanted(names, n - 1) {
            assert(names[n - 1] != other);
            lemma_named_prefix(values, rn, rr, kn, kr, rn.len() as int);
        }
    }
}

/// **The first branch is taken where the condition holds**, and the second where it does not; either
/// gives as many values as the node.
pub proof fn law_branches(node: NodeIr, taken: bool, g: GraphIr)
    requires
        branch_of(node, taken) == Some(g),
    ensures
        g.outputs@.len() == node.outputs@.len(),
        taken ==> (node.attrs.has("then_branch"@) && node.attrs.at("then_branch"@) is Graph
            && *(node.attrs.at("then_branch"@)->Graph_0) == g),
        !taken ==> (node.attrs.has("else_branch"@) && node.attrs.at("else_branch"@) is Graph
            && *(node.attrs.at("else_branch"@)->Graph_0) == g),
{
}

/// **What a branch gives becomes what its node gives**: a value moves to its new name, and all
/// others stay.
pub proof fn law_moved_value(values: Values, from: Seq<char>, to: Seq<char>, other: Seq<char>)
    requires
        values.contains_key(from),
        other != from,
        other != to,
    ensures
        ({
            let after = moved(values, seq![from], seq![to], 1);
            &&& after is Some
            &&& after->Some_0.contains_key(to)
            &&& after->Some_0[to] == values[from]
            &&& after->Some_0.contains_key(other) == values.contains_key(other)
            &&& values.contains_key(other) ==> after->Some_0[other] == values[other]
        }),
{
    assert(moved(values, seq![from], seq![to], 0) == Some(values));
}

/// **Names that are dropped are gone, and no others**.
pub proof fn law_dropped_names<V>(
    values: Map<Seq<char>, V>,
    names: Seq<Seq<char>>,
    k: int,
    name: Seq<char>,
)
    requires
        0 <= k <= names.len(),
    ensures
        without(values, names, k).contains_key(name) == (values.contains_key(name) && forall|i: int|
            0 <= i < k ==> #[trigger] names[i] != name),
        without(values, names, k).contains_key(name) ==> without(values, names, k)[name]
            == values[name],
    decreases k,
{
    if k > 0 {
        law_dropped_names(values, names, k - 1, name);
        if forall|i: int| 0 <= i < k - 1 ==> #[trigger] names[i] != name {
            if names[k - 1] != name {
                assert forall|i: int| 0 <= i < k implies #[trigger] names[i] != name by {}
            }
        }
    }
}

} // verus!
