//! A run of a graph: node after node, with the branches of `If` in between.

use crate::cache::KernelCache;
use crate::device::Tensor;
use crate::error::{backend_error, Kind, Result};
use crate::execution::ExecutionEnv;
use crate::graph::{AttrValue, GraphIr, InitializerIr, NodeIr};
use crate::host_ops::HostTensor;
use crate::interp::dispatch::{work, work_of, Limits};
use crate::interp::liveness::{dead_after, dies_at};
use crate::interp::work::{Work, WorkView};
use crate::names::NameMap;
use crate::text::texts;
use vstd::prelude::*;

verus! {

// --- values -----------------------------------------------------------------------------

/// The values of a run by name.
pub type Values = Map<Seq<char>, Tensor>;

/// The buffer that goes back when the value under `name` goes.
pub open spec fn owned_at(values: Values, name: Seq<char>) -> Option<u64> {
    if values.contains_key(name) {
        values[name].owned()
    } else {
        None
    }
}

pub open spec fn with(s: Seq<u64>, b: Option<u64>) -> Seq<u64> {
    match b {
        Some(v) => s.push(v),
        None => s,
    }
}

/// The values once the first `k` tensors have their names.
pub open spec fn named(values: Values, names: Seq<Seq<char>>, tensors: Seq<Tensor>, k: int) -> Values
    decreases k,
{
    if k <= 0 {
        values
    } else {
        named(values, names, tensors, k - 1).insert(names[k - 1], tensors[k - 1])
    }
}

/// The buffers that go back then.
pub open spec fn replaced(
    values: Values,
    names: Seq<Seq<char>>,
    tensors: Seq<Tensor>,
    k: int,
) -> Seq<u64>
    decreases k,
{
    if k <= 0 {
        Seq::empty()
    } else {
        with(
            replaced(values, names, tensors, k - 1),
            owned_at(named(values, names, tensors, k - 1), names[k - 1]),
        )
    }
}

/// A table without the first `k` of the names.
pub open spec fn without<V>(values: Map<Seq<char>, V>, names: Seq<Seq<char>>, k: int) -> Map<
    Seq<char>,
    V,
>
    decreases k,
{
    if k <= 0 {
        values
    } else {
        without(values, names, k - 1).remove(names[k - 1])
    }
}

/// The buffers that go back with the first `k` names.
pub open spec fn dropped(values: Values, names: Seq<Seq<char>>, k: int) -> Seq<u64>
    decreases k,
{
    if k <= 0 {
        Seq::empty()
    } else {
        with(dropped(values, names, k - 1), owned_at(without(values, names, k - 1), names[k - 1]))
    }
}

/// The values once the first `k` have moved to their new names; nothing where one is missing.
pub open spec fn moved(values: Values, from: Seq<Seq<char>>, to: Seq<Seq<char>>, k: int) -> Option<
    Values,
>
    decreases k,
{
    if k <= 0 {
        Some(values)
    } else {
        match moved(values, from, to, k - 1) {
            None => None,
            Some(v) => if v.contains_key(from[k - 1]) {
                Some(v.remove(from[k - 1]).insert(to[k - 1], v[from[k - 1]]))
            } else {
                None
            },
        }
    }
}

/// The buffers that go back then.
pub open spec fn displaced(values: Values, from: Seq<Seq<char>>, to: Seq<Seq<char>>, k: int) -> Seq<
    u64,
>
    decreases k,
{
    if k <= 0 {
        Seq::empty()
    } else {
        let v = moved(values, from, to, k - 1)->Some_0;
        with(
            displaced(values, from, to, k - 1),
            if from[k - 1] != to[k - 1] {
                owned_at(v, to[k - 1])
            } else {
                None
            },
        )
    }
}

/// Whether a result is kept as output `j`: outputs behind the first can be left out, by their
/// number or by an empty name.
pub open spec fn wanted(names: Seq<Seq<char>>, j: int) -> bool {
    j < names.len() && (j == 0 || names[j].len() > 0)
}

/// The names among the first `k` under which results are kept.
pub open spec fn kept_names(names: Seq<Seq<char>>, k: int) -> Seq<Seq<char>>
    decreases k,
{
    if k <= 0 {
        Seq::empty()
    } else if wanted(names, k - 1) {
        kept_names(names, k - 1).push(names[k - 1])
    } else {
        kept_names(names, k - 1)
    }
}

/// The results among the first `k` that are kept.
pub open spec fn kept_results(names: Seq<Seq<char>>, tensors: Seq<Tensor>, k: int) -> Seq<Tensor>
    decreases k,
{
    if k <= 0 {
        Seq::empty()
    } else if wanted(names, k - 1) {
        kept_results(names, tensors, k - 1).push(tensors[k - 1])
    } else {
        kept_results(names, tensors, k - 1)
    }
}

/// The buffers of the results among the first `k` that nobody asked for.
pub open spec fn unwanted(names: Seq<Seq<char>>, tensors: Seq<Tensor>, k: int) -> Seq<u64>
    decreases k,
{
    if k <= 0 {
        Seq::empty()
    } else if wanted(names, k - 1) {
        unwanted(names, tensors, k - 1)
    } else {
        with(unwanted(names, tensors, k - 1), tensors[k - 1].owned())
    }
}

/// Parts the results that are kept, with their names, from those that nobody asked for.
fn sort_out(names: &Vec<String>, tensors: Vec<Tensor>) -> (r: (Vec<String>, Vec<Tensor>, Vec<u64>))
    ensures
        texts(r.0@) == kept_names(texts(names@), tensors@.len() as int),
        r.1@ == kept_results(texts(names@), tensors@, tensors@.len() as int),
        r.0@.len() == r.1@.len(),
        r.2@ == unwanted(texts(names@), tensors@, tensors@.len() as int),
{
    let ghost all = tensors@;
    let ghost list = texts(names@);
    let mut kept: Vec<String> = Vec::new();
    let mut results: Vec<Tensor> = Vec::new();
    let mut back: Vec<u64> = Vec::new();
    let mut rest = tensors;
    let n: usize = rest.len();
    let mut j: usize = 0;
    assert(texts(kept@) =~= Seq::empty());
    assert(results@ =~= Seq::empty());
    assert(back@ =~= Seq::empty());
    while j < n
        invariant
            j <= n,
            n == all.len(),
            list == texts(names@),
            rest@ == all.skip(j as int),
            texts(kept@) == kept_names(list, j as int),
            results@ == kept_results(list, all, j as int),
            kept@.len() == results@.len(),
            back@ == unwanted(list, all, j as int),
        decreases n - j,
    {
        let t = rest.remove(0);
        assert(rest@ =~= all.skip(j + 1));
        if j < names.len() {
            assert(list[j as int] == names@[j as int]@);
        }
        if j < names.len() && (j == 0 || !names[j].as_str().is_empty()) {
            let ghost was = texts(kept@);
            let name = names[j].clone();
            kept.push(name);
            assert(texts(kept@) =~= was.push(name@));
            results.push(t);
        } else {
            match t.owned_buffer() {
                Some(b) => {
                    back.push(b);
                },
                None => {},
            }
        }
        j += 1;
    }
    (kept, results, back)
}

/// Gives tensors their names. The buffers that go back are appended.
fn name_all(env: &mut ExecutionEnv, names: &Vec<String>, tensors: Vec<Tensor>, back: &mut Vec<u64>)
    requires
        old(env).wf(),
        tensors@.len() <= names@.len(),
    ensures
        final(env).wf(),
        *final(env).initializers == *old(env).initializers,
        final(env).values.map() == named(
            old(env).values.map(),
            texts(names@),
            tensors@,
            tensors@.len() as int,
        ),
        final(env).host_cache.map() == without(
            old(env).host_cache.map(),
            texts(names@),
            tensors@.len() as int,
        ),
        final(back)@ == old(back)@ + replaced(
            old(env).values.map(),
            texts(names@),
            tensors@,
            tensors@.len() as int,
        ),
{
    let ghost all = tensors@;
    let ghost values = env.values.map();
    let ghost cached = env.host_cache.map();
    let ghost before = back@;
    let mut rest = tensors;
    let n: usize = rest.len();
    let mut i: usize = 0;
    assert(back@ =~= before + Seq::<u64>::empty());
    while i < n
        invariant
            i <= n,
            n == all.len(),
            n <= names@.len(),
            env.wf(),
            *env.initializers == *old(env).initializers,
            rest@ == all.skip(i as int),
            env.values.map() == named(values, texts(names@), all, i as int),
            env.host_cache.map() == without(cached, texts(names@), i as int),
            back@ == before + replaced(values, texts(names@), all, i as int),
        decreases n - i,
    {
        let t = rest.remove(0);
        assert(rest@ =~= all.skip(i + 1));
        assert(texts(names@)[i as int] == names@[i as int]@);
        match env.set(names[i].as_str(), t) {
            Some(h) => {
                back.push(h);
            },
            None => {},
        }
        assert(back@ =~= before + replaced(values, texts(names@), all, i + 1));
        i += 1;
    }
}

/// Takes values out of the run. The buffers that go back are appended.
fn drop_all(env: &mut ExecutionEnv, names: &Vec<String>, back: &mut Vec<u64>)
    requires
        old(env).wf(),
    ensures
        final(env).wf(),
        *final(env).initializers == *old(env).initializers,
        final(env).values.map() == without(
            old(env).values.map(),
            texts(names@),
            names@.len() as int,
        ),
        final(env).host_cache.map() == without(
            old(env).host_cache.map(),
            texts(names@),
            names@.len() as int,
        ),
        final(back)@ == old(back)@ + dropped(
            old(env).values.map(),
            texts(names@),
            names@.len() as int,
        ),
{
    let ghost values = env.values.map();
    let ghost cached = env.host_cache.map();
    let ghost before = back@;
    let n: usize = names.len();
    let mut i: usize = 0;
    assert(back@ =~= before + Seq::<u64>::empty());
    while i < n
        invariant
            i <= n,
            n == names@.len(),
            env.wf(),
            *env.initializers == *old(env).initializers,
            env.values.map() == without(values, texts(names@), i as int),
            env.host_cache.map() == without(cached, texts(names@), i as int),
            back@ == before + dropped(values, texts(names@), i as int),
        decreases n - i,
    {
        assert(texts(names@)[i as int] == names@[i as int]@);
        match env.release(names[i].as_str()) {
            Some(h) => {
                back.push(h);
            },
            None => {},
        }
        assert(back@ =~= before + dropped(values, texts(names@), i + 1));
        i += 1;
    }
}

proof fn lemma_moved_stops(values: Values, from: Seq<Seq<char>>, to: Seq<Seq<char>>, k: int, n: int)
    requires
        k <= n,
        moved(values, from, to, k) is None,
    ensures
        moved(values, from, to, n) is None,
    decreases n - k,
{
    if k < n {
        lemma_moved_stops(values, from, to, k + 1, n);
    }
}

/// Moves values to new names. The buffers that go back are appended.
fn move_all(env: &mut ExecutionEnv, from: &Vec<String>, to: &Vec<String>, back: &mut Vec<u64>) -> (r:
    Result<()>)
    requires
        old(env).wf(),
        from@.len() == to@.len(),
    ensures
        final(env).wf(),
        *final(env).initializers == *old(env).initializers,
        match r {
            Ok(_) => {
                &&& moved(
                    old(env).values.map(),
                    texts(from@),
                    texts(to@),
                    from@.len() as int,
                ) == Some(final(env).values.map())
                &&& final(env).host_cache.map() == without(
                    without(old(env).host_cache.map(), texts(from@), from@.len() as int),
                    texts(to@),
                    to@.len() as int,
                )
                &&& final(back)@ == old(back)@ + displaced(
                    old(env).values.map(),
                    texts(from@),
                    texts(to@),
                    from@.len() as int,
                )
            },
            Err(e) => moved(
                old(env).values.map(),
                texts(from@),
                texts(to@),
                from@.len() as int,
            ) is None && e.kind() == Kind::Backend,
        },
{
    let ghost values = env.values.map();
    let ghost cached = env.host_cache.map();
    let ghost before = back@;
    let n: usize = from.len();
    let mut i: usize = 0;
    assert(back@ =~= before + Seq::<u64>::empty());
    proof {
        assert(without(without(cached, texts(from@), 0), texts(to@), 0) =~= cached);
    }
    while i < n
        invariant
            i <= n,
            n == from@.len(),
            n == to@.len(),
            values == old(env).values.map(),
            env.wf(),
            *env.initializers == *old(env).initializers,
            moved(values, texts(from@), texts(to@), i as int) == Some(env.values.map()),
            env.host_cache.map() == without(
                without(cached, texts(from@), i as int),
                texts(to@),
                i as int,
            ),
            back@ == before + displaced(values, texts(from@), texts(to@), i as int),
        decreases n - i,
    {
        assert(texts(from@)[i as int] == from@[i as int]@);
        assert(texts(to@)[i as int] == to@[i as int]@);
        let ghost was = env.host_cache.map();
        match env.move_value(from[i].as_str(), to[i].as_str()) {
            Ok(b) => {
                match b {
                    Some(h) => {
                        back.push(h);
                    },
                    None => {},
                }
                assert(back@ =~= before + displaced(values, texts(from@), texts(to@), i + 1));
                proof {
                    lemma_without_swap(
                        without(cached, texts(from@), i as int),
                        texts(to@),
                        i as int,
                        from@[i as int]@,
                    );
                }
            },
            Err(_) => {
                proof {
                    assert(moved(values, texts(from@), texts(to@), i + 1) is None);
                    lemma_moved_stops(values, texts(from@), texts(to@), i + 1, n as int);
                }
                return Err(backend_error("value not produced by the selected branch"));
            },
        }
        i += 1;
    }
    Ok(())
}

proof fn lemma_without_swap<V>(m: Map<Seq<char>, V>, names: Seq<Seq<char>>, k: int, x: Seq<char>)
    ensures
        without(m, names, k).remove(x) == without(m.remove(x), names, k),
    decreases k,
{
    if k > 0 {
        lemma_without_swap(m, names, k - 1, x);
        assert(without(m, names, k).remove(x) =~= without(m.remove(x), names, k));
    }
}

proof fn lemma_without_keeps<V>(m: Map<Seq<char>, V>, names: Seq<Seq<char>>, k: int, x: Seq<char>)
    requires
        0 <= k <= names.len(),
        !names.take(k).contains(x),
    ensures
        without(m, names, k).contains_key(x) == m.contains_key(x),
        m.contains_key(x) ==> without(m, names, k)[x] == m[x],
    decreases k,
{
    if k > 0 {
        assert(names.take(k)[k - 1] == names[k - 1]);
        assert(names.take(k).contains(names[k - 1]));
        assert forall|j: int| 0 <= j < k - 1 implies #[trigger] names.take(k - 1)[j] != x by {
            assert(names.take(k)[j] == names[j]);
        }
        lemma_without_keeps(m, names, k - 1, x);
    }
}

/// **What is read after the run stays**: giving back what dies at a node takes away no value of
/// an output of the graph and none that a later node reads, as an input or in a subgraph.
pub proof fn law_needed_values_stay(
    ir: GraphIr,
    i: int,
    dead: Seq<String>,
    values: Values,
    name: Seq<char>,
)
    requires
        0 <= i < ir.nodes@.len(),
        forall|x: Seq<char>| #[trigger] texts(dead).contains(x) == dies_at(ir, i, x),
        values.contains_key(name),
        texts(ir.outputs@).contains(name) || exists|j: int|
            i < j < ir.nodes@.len() && #[trigger] crate::interp::liveness::reads(ir, j, name),
    ensures
        without(values, texts(dead), dead.len() as int).contains_key(name),
        without(values, texts(dead), dead.len() as int)[name] == values[name],
{
    assert(!dies_at(ir, i, name));
    assert(texts(dead).take(dead.len() as int) =~= texts(dead));
    lemma_without_keeps(values, texts(dead), dead.len() as int, name);
}

// --- branches ---------------------------------------------------------------------------

/// The name of the attribute that holds the branch.
pub open spec fn branch_name(taken: bool) -> Seq<char> {
    if taken {
        "then_branch"@
    } else {
        "else_branch"@
    }
}

/// The branch of `If` that is taken; it has to have as many outputs as the node.
pub open spec fn branch_of(node: NodeIr, taken: bool) -> Option<GraphIr> {
    if !node.attrs.has(branch_name(taken)) {
        None
    } else {
        match node.attrs.at(branch_name(taken)) {
            AttrValue::Graph(g) => if g.outputs@.len() == node.outputs@.len() {
                Some(*g)
            } else {
                None
            },
            _ => None,
        }
    }
}

/// The branch of `If` that is taken.
pub fn branch<'g>(node: &'g NodeIr, taken: bool) -> (r: Option<&'g GraphIr>)
    ensures
        match r {
            Some(g) => branch_of(*node, taken) == Some(*g),
            None => branch_of(*node, taken) is None,
        },
{
    let name: &str = if taken {
        "then_branch"
    } else {
        "else_branch"
    };
    match node.attrs.get(name) {
        Some(AttrValue::Graph(g)) => if g.outputs.len() == node.outputs.len() {
            Some(g)
        } else {
            None
        },
        _ => None,
    }
}

/// Whether a constant of the branch has the name of a value of the run.
pub open spec fn shadows(values: Values, branch: GraphIr) -> bool {
    exists|i: int|
        0 <= i < branch.initializers.entries@.len() && values.contains_key(
            (#[trigger] branch.initializers.entries@[i]).0@,
        )
}

/// Whether a value is a host copy of a constant.
pub open spec fn holds(t: Tensor, i: InitializerIr) -> bool {
    t matches Tensor::Host(h) && h@ == i@
}

/// The names of the constants of a graph.
pub open spec fn constant_names(g: GraphIr) -> Seq<Seq<char>> {
    g.initializers.entries@.map_values(|e: (String, InitializerIr)| e.0@)
}

/// Whether `after` is `before` with the constants of a branch as values of the run.
pub open spec fn opened(before: Values, after: Values, branch: GraphIr) -> bool {
    &&& forall|i: int|
        0 <= i < branch.initializers.entries@.len() ==> after.contains_key(
            (#[trigger] branch.initializers.entries@[i]).0@,
        ) && holds(
            after[branch.initializers.entries@[i].0@],
            branch.initializers.entries@[i].1,
        )
    &&& without(after, constant_names(branch), constant_names(branch).len() as int) == before
}

fn has_shadow(env: &ExecutionEnv, branch: &GraphIr) -> (r: bool)
    ensures
        r == shadows(env.values.map(), *branch),
{
    let n: usize = branch.initializers.entries.len();
    let mut i: usize = 0;
    while i < n
        invariant
            i <= n,
            n == branch.initializers.entries@.len(),
            forall|k: int|
                0 <= k < i ==> !env.values.map().contains_key(
                    (#[trigger] branch.initializers.entries@[k]).0@,
                ),
        decreases n - i,
    {
        if env.contains_runtime_value(branch.initializers.entries[i].0.as_str()) {
            assert(env.values.map().contains_key(branch.initializers.entries@[i as int].0@));
            return true;
        }
        i += 1;
    }
    false
}

/// Makes the constants of a branch values of the run, for as long as the branch runs.
fn open_branch(env: &mut ExecutionEnv, branch: &GraphIr)
    requires
        old(env).wf(),
        branch.initializers.wf(),
        !shadows(old(env).values.map(), *branch),
    ensures
        final(env).wf(),
        *final(env).initializers == *old(env).initializers,
        opened(old(env).values.map(), final(env).values.map(), *branch),
        final(env).host_cache.map() == without(
            old(env).host_cache.map(),
            constant_names(*branch),
            constant_names(*branch).len() as int,
        ),
{
    let ghost before = env.values.map();
    let ghost cached = env.host_cache.map();
    let ghost names = constant_names(*branch);
    let ghost entries = branch.initializers.entries@;
    let n: usize = branch.initializers.entries.len();
    let mut i: usize = 0;
    while i < n
        invariant
            i <= n,
            n == entries.len(),
            entries == branch.initializers.entries@,
            names == constant_names(*branch),
            branch.initializers.wf(),
            !shadows(before, *branch),
            env.wf(),
            *env.initializers == *old(env).initializers,
            forall|k: int|
                0 <= k < i ==> env.values.map().contains_key((#[trigger] entries[k]).0@) && holds(
                    env.values.map()[entries[k].0@],
                    entries[k].1,
                ),
            forall|k: int|
                i <= k < n ==> !env.values.map().contains_key((#[trigger] entries[k]).0@),
            without(env.values.map(), names, i as int) == before,
            env.host_cache.map() == without(cached, names, i as int),
        decreases n - i,
    {
        let name = branch.initializers.entries[i].0.as_str();
        let ghost was = env.values.map();
        assert(names[i as int] == entries[i as int].0@);
        let t = branch.initializers.entries[i].1.to_host();
        env.set(name, Tensor::Host(t));
        proof {
            lemma_without_set(was, names, i as int, name@, Tensor::Host(t));
            assert(was.remove(name@) =~= was);
        }
        i += 1;
    }
}

proof fn lemma_without_set(
    m: Values,
    names: Seq<Seq<char>>,
    k: int,
    x: Seq<char>,
    t: Tensor,
)
    requires
        0 <= k < names.len(),
        names[k] == x,
        !m.contains_key(x),
    ensures
        without(m.insert(x, t), names, k + 1) == without(m, names, k),
{
    lemma_without_swap(m.insert(x, t), names, k, x);
    assert(m.insert(x, t).remove(x) =~= m);
}

// --- the run ----------------------------------------------------------------------------

/// A graph that is being run, and the node that is next.
#[derive(Clone, Copy)]
pub struct Frame<'g> {
    pub graph: &'g GraphIr,
    pub next: usize,
}

/// A run: the graph, and above it the branches that are open.
pub struct Run<'g> {
    pub frames: Vec<Frame<'g>>,
    pub dead: Vec<Vec<String>>,
}

/// What a run needs next.
#[derive(Debug, PartialEq)]
pub enum Action<'g> {
    /// Nothing: all nodes have run.
    Done,
    /// A branch was opened.
    Opened,
    /// A branch was closed; these buffers go back.
    Closed(Vec<u64>),
    /// A node needs this.
    Do(&'g NodeIr, Work),
}

/// What a run comes to next.
pub enum ActionView {
    Done,
    Open(GraphIr),
    Close,
    Do(NodeIr, WorkView),
}

impl<'g> Run<'g> {
    pub open spec fn top(self) -> Frame<'g> {
        self.frames@.last()
    }

    /// The graph as a whole.
    pub open spec fn whole(self) -> GraphIr {
        *self.frames@[0].graph
    }

    /// Every open branch belongs to the node that is next in the frame below it, and `dead`
    /// says what dies at each node of the graph.
    pub open spec fn wf(self) -> bool {
        &&& self.frames@.len() > 0
        &&& forall|k: int|
            0 <= k < self.frames@.len() ==> (#[trigger] self.frames@[k]).next
                <= self.frames@[k].graph.nodes@.len()
        &&& forall|k: int|
            0 <= k < self.frames@.len() - 1 ==> (#[trigger] self.frames@[k]).next
                < self.frames@[k].graph.nodes@.len()
        &&& forall|k: int|
            1 <= k < self.frames@.len() ==> self.owner(k).outputs@.len() == (
            #[trigger] self.frames@[k]).graph.outputs@.len()
        &&& self.dead@.len() == self.whole().nodes@.len()
        &&& forall|i: int, name: Seq<char>|
            0 <= i < self.dead@.len() ==> #[trigger] texts(self.dead@[i]@).contains(name)
                == dies_at(self.whole(), i, name)
    }

    /// The node whose branch frame `k` runs.
    pub open spec fn owner(self, k: int) -> NodeIr {
        self.frames@[k - 1].graph.nodes@[self.frames@[k - 1].next as int]
    }

    /// The node that is next, if one is left in the graph or branch on top.
    pub open spec fn node(self) -> Option<NodeIr> {
        if self.top().next < self.top().graph.nodes@.len() {
            Some(self.top().graph.nodes@[self.top().next as int])
        } else {
            None
        }
    }

    /// What comes next: the next node is asked what it needs; a branch that has ended is
    /// closed; nothing where the node cannot go on, or its branch cannot be opened.
    pub open spec fn next_of(
        self,
        env: ExecutionEnv,
        cache: KernelCache,
        fetched: NameMap<HostTensor>,
        limits: Limits,
    ) -> Option<ActionView> {
        match self.node() {
            Some(node) => match work_of(env, cache, fetched, node, limits) {
                None => None,
                Some(WorkView::Branch(taken)) => match branch_of(node, taken) {
                    None => None,
                    Some(g) => if !g.initializers.wf() || shadows(env.values.map(), g) {
                        None
                    } else {
                        Some(ActionView::Open(g))
                    },
                },
                Some(w) => Some(ActionView::Do(node, w)),
            },
            None => if self.frames@.len() == 1 {
                Some(ActionView::Done)
            } else {
                let inner = *self.top().graph;
                let owner = self.owner(self.frames@.len() - 1);
                if moved(
                    env.values.map(),
                    texts(inner.outputs@),
                    texts(owner.outputs@),
                    inner.outputs@.len() as int,
                ) is Some {
                    Some(ActionView::Close)
                } else {
                    None
                }
            },
        }
    }

    /// The names that die when the node that is next in frame `k` has run. Within a branch
    /// nothing dies: what it reads from outside belongs to the graph around it.
    pub open spec fn dying(self, k: int) -> Seq<Seq<char>> {
        if k == 0 {
            texts(self.dead@[self.frames@[0].next as int]@)
        } else {
            Seq::empty()
        }
    }

    /// A run of a graph from its first node.
    pub fn new(ir: &'g GraphIr) -> (r: Self)
        ensures
            r.wf(),
            r.frames@ == seq![Frame { graph: ir, next: 0 }],
    {
        let frames: Vec<Frame> = vec![Frame { graph: ir, next: 0 }];
        let dead = dead_after(ir);
        assert(frames@ =~= seq![Frame { graph: ir, next: 0 }]);
        Run { frames, dead }
    }

    /// Goes on to the next node: what dies at this one goes.
    fn advance(&mut self, env: &mut ExecutionEnv, back: &mut Vec<u64>)
        requires
            old(self).wf(),
            old(env).wf(),
            old(self).node() is Some,
        ensures
            final(self).wf(),
            final(self).dead == old(self).dead,
            final(self).frames@ == old(self).frames@.update(
                old(self).frames@.len() - 1,
                (Frame {
                    graph: old(self).top().graph,
                    next: (old(self).top().next + 1) as usize,
                }),
            ),
            final(env).wf(),
            *final(env).initializers == *old(env).initializers,
            final(env).values.map() == without(
                old(env).values.map(),
                old(self).dying(old(self).frames@.len() - 1),
                old(self).dying(old(self).frames@.len() - 1).len() as int,
            ),
            final(env).host_cache.map() == without(
                old(env).host_cache.map(),
                old(self).dying(old(self).frames@.len() - 1),
                old(self).dying(old(self).frames@.len() - 1).len() as int,
            ),
            final(back)@ == old(back)@ + dropped(
                old(env).values.map(),
                old(self).dying(old(self).frames@.len() - 1),
                old(self).dying(old(self).frames@.len() - 1).len() as int,
            ),
    {
        let last: usize = self.frames.len() - 1;
        let frame: Frame = self.frames[last];
        let total: usize = frame.graph.nodes.len();
        assert(frame.next < total);
        if last == 0 {
            drop_all(env, &self.dead[frame.next], back);
        } else {
            assert(back@ =~= old(back)@ + Seq::<u64>::empty());
        }
        self.frames.set(last, Frame { graph: frame.graph, next: frame.next + 1 });
        proof {
            let was = *old(self);
            assert forall|k: int| 1 <= k < self.frames@.len() implies self.owner(k).outputs@.len()
                == (#[trigger] self.frames@[k]).graph.outputs@.len() by {
                assert(was.frames@[k].graph.outputs@.len() == was.owner(k).outputs@.len());
            }
        }
    }

    /// Records that the node that is next has produced these tensors, as its outputs in order.
    /// The buffers that go back are returned: those of results that nobody asked for, of values
    /// that were replaced, and of values that die here.
    pub fn produced(&mut self, env: &mut ExecutionEnv, tensors: Vec<Tensor>) -> (r: Result<Vec<u64>>)
        requires
            old(self).wf(),
            old(env).wf(),
        ensures
            final(self).wf(),
            final(self).dead == old(self).dead,
            final(env).wf(),
            *final(env).initializers == *old(env).initializers,
            match (r, old(self).node()) {
                (Ok(back), Some(node)) => {
                    let all = texts(node.outputs@);
                    let names = kept_names(all, tensors@.len() as int);
                    let results = kept_results(all, tensors@, tensors@.len() as int);
                    let n = names.len() as int;
                    let stored = named(old(env).values.map(), names, results, n);
                    let dying = old(self).dying(old(self).frames@.len() - 1);
                    &&& node.outputs@.len() > 0 || tensors@.len() == 0
                    &&& final(self).frames@ == old(self).frames@.update(
                        old(self).frames@.len() - 1,
                        (Frame {
                            graph: old(self).top().graph,
                            next: (old(self).top().next + 1) as usize,
                        }),
                    )
                    &&& final(env).values.map() == without(stored, dying, dying.len() as int)
                    &&& final(env).host_cache.map() == without(
                        without(old(env).host_cache.map(), names, n),
                        dying,
                        dying.len() as int,
                    )
                    &&& back@ == unwanted(all, tensors@, tensors@.len() as int) + replaced(
                        old(env).values.map(),
                        names,
                        results,
                        n,
                    ) + dropped(stored, dying, dying.len() as int)
                },
                (Err(e), node) => {
                    &&& e.kind() == Kind::Backend
                    &&& node matches Some(n) ==> n.outputs@.len() == 0 && tensors@.len() > 0
                    &&& *final(self) == *old(self)
                    &&& *final(env) == *old(env)
                },
                _ => false,
            },
    {
        let last: usize = self.frames.len() - 1;
        let frame: Frame = self.frames[last];
        if frame.next >= frame.graph.nodes.len() {
            return Err(backend_error("no node is next"));
        }
        let node: &NodeIr = &frame.graph.nodes[frame.next];
        if node.outputs.len() == 0 && tensors.len() > 0 {
            return Err(backend_error("the node has no outputs"));
        }
        let (names, results, back) = sort_out(&node.outputs, tensors);
        let mut back: Vec<u64> = back;
        assert(texts(names@).len() == names@.len());
        name_all(env, &names, results, &mut back);
        self.advance(env, &mut back);
        Ok(back)
    }

    /// Takes the next step: opens or closes a branch, or says what a node needs.
    pub fn step(
        &mut self,
        env: &mut ExecutionEnv,
        cache: &KernelCache,
        fetched: &NameMap<HostTensor>,
        limits: Limits,
    ) -> (r: Result<Action<'g>>)
        requires
            old(self).wf(),
            old(env).wf(),
            limits.tile > 0,
        ensures
            final(self).wf(),
            final(self).dead == old(self).dead,
            final(env).wf(),
            *final(env).initializers == *old(env).initializers,
            match (r, old(self).next_of(*old(env), *cache, *fetched, limits)) {
                (Ok(Action::Done), Some(ActionView::Done)) => {
                    &&& *final(self) == *old(self)
                    &&& *final(env) == *old(env)
                },
                (Ok(Action::Do(node, work)), Some(ActionView::Do(n, w))) => {
                    &&& *node == n
                    &&& work@ == w
                    &&& *final(self) == *old(self)
                    &&& *final(env) == *old(env)
                },
                (Ok(Action::Opened), Some(ActionView::Open(g))) => {
                    &&& final(self).frames@.drop_last() == old(self).frames@
                    &&& *final(self).top().graph == g
                    &&& final(self).top().next == 0
                    &&& opened(old(env).values.map(), final(env).values.map(), g)
                    &&& final(env).host_cache.map() == without(
                        old(env).host_cache.map(),
                        constant_names(g),
                        constant_names(g).len() as int,
                    )
                },
                (Ok(Action::Closed(back)), Some(ActionView::Close)) => old(self).closes(
                    *final(self),
                    *old(env),
                    *final(env),
                    back@,
                ),
                (Err(e), None) => e.kind() == Kind::Backend && *final(self) == *old(self),
                _ => false,
            },
    {
        let last: usize = self.frames.len() - 1;
        let frame: Frame = self.frames[last];
        if frame.next < frame.graph.nodes.len() {
            let node: &'g NodeIr = &frame.graph.nodes[frame.next];
            match work(env, cache, fetched, node, limits) {
                Err(e) => Err(e),
                Ok(Work::Branch(taken)) => match branch(node, taken) {
                    None => Err(backend_error("the branch is missing or has other outputs")),
                    Some(g) => {
                        if !g.initializers.has_distinct_names() {
                            return Err(backend_error("a constant of the branch occurs twice"));
                        }
                        if has_shadow(env, g) {
                            return Err(
                                backend_error("a constant of the branch shadows a runtime value"),
                            );
                        }
                        open_branch(env, g);
                        self.frames.push(Frame { graph: g, next: 0 });
                        proof {
                            let was = *old(self);
                            assert(self.frames@.drop_last() =~= was.frames@);
                            assert forall|k: int| 1 <= k < self.frames@.len() implies self.owner(
                                k,
                            ).outputs@.len() == (#[trigger] self.frames@[k]).graph.outputs@.len() by {
                                if k < was.frames@.len() {
                                    assert(was.frames@[k].graph.outputs@.len() == was.owner(
                                        k,
                                    ).outputs@.len());
                                }
                            }
                        }
                        Ok(Action::Opened)
                    },
                },
                Ok(w) => Ok(Action::Do(node, w)),
            }
        } else if last == 0 {
            Ok(Action::Done)
        } else {
            match self.close(env) {
                Ok(back) => Ok(Action::Closed(back)),
                Err(e) => Err(e),
            }
        }
    }

    /// Whether closing the branch on top leads from one state to the other: its outputs become
    /// those of the node that it belongs to, its constants go, and the run goes on behind that
    /// node.
    pub open spec fn closes(
        self,
        after: Run<'g>,
        env: ExecutionEnv,
        left: ExecutionEnv,
        back: Seq<u64>,
    ) -> bool {
        let k = self.frames@.len() - 1;
        let inner = *self.top().graph;
        let from = texts(inner.outputs@);
        let to = texts(self.owner(k).outputs@);
        let n = from.len() as int;
        let values = moved(env.values.map(), from, to, n)->Some_0;
        let constants = constant_names(inner);
        let c = constants.len() as int;
        let rest = without(values, constants, c);
        let dying = self.dying(k - 1);
        let d = dying.len() as int;
        let below = self.frames@[k - 1];
        &&& after.frames@ == self.frames@.drop_last().update(
            k - 1,
            (Frame { graph: below.graph, next: (below.next + 1) as usize }),
        )
        &&& left.values.map() == without(rest, dying, d)
        &&& left.host_cache.map() == without(
            without(without(without(env.host_cache.map(), from, n), to, n), constants, c),
            dying,
            d,
        )
        &&& back == displaced(env.values.map(), from, to, n) + dropped(values, constants, c)
            + dropped(rest, dying, d)
    }

    fn close(&mut self, env: &mut ExecutionEnv) -> (r: Result<Vec<u64>>)
        requires
            old(self).wf(),
            old(env).wf(),
            old(self).frames@.len() > 1,
        ensures
            final(self).wf(),
            final(self).dead == old(self).dead,
            final(env).wf(),
            *final(env).initializers == *old(env).initializers,
            ({
                let inner = *old(self).top().graph;
                let owner = old(self).owner(old(self).frames@.len() - 1);
                let m = moved(
                    old(env).values.map(),
                    texts(inner.outputs@),
                    texts(owner.outputs@),
                    inner.outputs@.len() as int,
                );
                match r {
                    Ok(back) => m is Some && old(self).closes(
                        *final(self),
                        *old(env),
                        *final(env),
                        back@,
                    ),
                    Err(e) => m is None && e.kind() == Kind::Backend && *final(self) == *old(self),
                }
            }),
    {
        let last: usize = self.frames.len() - 1;
        let inner: &'g GraphIr = self.frames[last].graph;
        let below: Frame = self.frames[last - 1];
        let owner: &'g NodeIr = &below.graph.nodes[below.next];
        assert(old(self).owner(last as int).outputs@.len() == old(
            self,
        ).frames@[last as int].graph.outputs@.len());
        let mut back: Vec<u64> = Vec::new();
        match move_all(env, &inner.outputs, &owner.outputs, &mut back) {
            Ok(_) => {},
            Err(e) => {
                return Err(e);
            },
        }
        let ghost first = back@;
        let ghost values = env.values.map();
        let names = names_of(inner);
        drop_all(env, &names, &mut back);
        let ghost second = back@;
        let ghost rest = env.values.map();
        self.frames.pop();
        proof {
            let was = *old(self);
            assert(self.frames@ =~= was.frames@.drop_last());
            assert forall|k: int| 1 <= k < self.frames@.len() implies self.owner(k).outputs@.len()
                == (#[trigger] self.frames@[k]).graph.outputs@.len() by {
                assert(was.frames@[k].graph.outputs@.len() == was.owner(k).outputs@.len());
            }
            assert(was.frames@[last - 1].next < was.frames@[last - 1].graph.nodes@.len());
        }
        self.advance(env, &mut back);
        proof {
            let was = *old(self);
            let from = texts(inner.outputs@);
            let to = texts(owner.outputs@);
            assert(first =~= displaced(old(env).values.map(), from, to, from.len() as int));
            assert(second =~= first + dropped(
                values,
                constant_names(*inner),
                constant_names(*inner).len() as int,
            ));
        }
        Ok(back)
    }
}

/// The names of the constants of a graph.
fn names_of(g: &GraphIr) -> (r: Vec<String>)
    ensures
        texts(r@) == constant_names(*g),
{
    let n: usize = g.initializers.entries.len();
    let mut r: Vec<String> = Vec::new();
    let mut i: usize = 0;
    while i < n
        invariant
            i <= n,
            n == g.initializers.entries@.len(),
            texts(r@) =~= constant_names(*g).take(i as int),
        decreases n - i,
    {
        let ghost was = texts(r@);
        let name = g.initializers.entries[i].0.clone();
        r.push(name);
        assert(texts(r@) =~= was.push(name@));
        assert(constant_names(*g)[i as int] == name@);
        i += 1;
    }
    assert(texts(r@) =~= constant_names(*g));
    r
}

} // verus!
