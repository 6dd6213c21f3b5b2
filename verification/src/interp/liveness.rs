//! How long a value is needed.

use crate::graph::GraphIr;
use crate::rewrite::has_name;
use crate::rewrite::prune::{add_captures, node_captures};
use crate::text::texts;
use vstd::prelude::*;

verus! {

/// Whether node `i` reads `name`, be it as an input or inside a subgraph that it carries.
pub open spec fn reads(ir: GraphIr, i: int, name: Seq<char>) -> bool {
    texts(ir.nodes@[i].inputs@).contains(name) || node_captures(ir.nodes@[i], name)
}

/// Whether node `i` is the last that reads `name`, and nothing else keeps it: graph outputs are
/// read after the run, and constants belong to all runs.
pub open spec fn dies_at(ir: GraphIr, i: int, name: Seq<char>) -> bool {
    &&& name.len() > 0
    &&& reads(ir, i, name)
    &&& forall|j: int| i < j < ir.nodes@.len() ==> !#[trigger] reads(ir, j, name)
    &&& !texts(ir.outputs@).contains(name)
    &&& !ir.initializers.has(name)
}

/// Whether no name occurs twice.
pub open spec fn distinct(v: Seq<String>) -> bool {
    forall|a: int, b: int| 0 <= a < b < v.len() ==> (#[trigger] v[a])@ != (#[trigger] v[b])@
}

/// Whether `lists` holds for each node the names that it reads.
spec fn lists_reads(ir: GraphIr, lists: Seq<Vec<String>>) -> bool {
    &&& lists.len() == ir.nodes@.len()
    &&& forall|i: int, name: Seq<char>|
        0 <= i < lists.len() ==> (#[trigger] texts(lists[i]@).contains(name) == reads(ir, i, name))
}

/// For each node, the names that it reads.
fn read_lists(ir: &GraphIr) -> (r: Vec<Vec<String>>)
    ensures
        lists_reads(*ir, r@),
{
    let n: usize = ir.nodes.len();
    let mut r: Vec<Vec<String>> = Vec::new();
    let mut i: usize = 0;
    while i < n
        invariant
            i <= n,
            n == ir.nodes@.len(),
            r@.len() == i,
            forall|k: int, name: Seq<char>|
                0 <= k < i ==> (#[trigger] texts(r@[k]@).contains(name) == reads(*ir, k, name)),
        decreases n - i,
    {
        let mut names: Vec<String> = ir.nodes[i].inputs.clone();
        proof {
            assert(texts(names@) =~= texts(ir.nodes@[i as int].inputs@));
        }
        add_captures(&ir.nodes[i], &mut names);
        let ghost was = r@;
        r.push(names);
        assert forall|k: int, name: Seq<char>| 0 <= k < i + 1 implies (#[trigger] texts(
            r@[k]@,
        ).contains(name) == reads(*ir, k, name)) by {
            if k < i {
                assert(r@[k] == was[k]);
                assert(texts(was[k]@).contains(name) == reads(*ir, k, name));
            }
        }
        i += 1;
    }
    r
}

fn read_later(ir: &GraphIr, lists: &Vec<Vec<String>>, from: usize, name: &str) -> (r: bool)
    requires
        lists_reads(*ir, lists@),
    ensures
        r == (exists|j: int| from <= j < ir.nodes@.len() && #[trigger] reads(*ir, j, name@)),
{
    let n: usize = lists.len();
    let mut j: usize = from;
    while j < n
        invariant
            n == ir.nodes@.len(),
            from <= j,
            lists_reads(*ir, lists@),
            forall|k: int| from <= k < j ==> !#[trigger] reads(*ir, k, name@),
        decreases n - j,
    {
        assert(texts(lists@[j as int]@).contains(name@) == reads(*ir, j as int, name@));
        if has_name(&lists[j], name) {
            return true;
        }
        j += 1;
    }
    false
}

/// The names that die at node `i`.
fn dead_at(ir: &GraphIr, lists: &Vec<Vec<String>>, i: usize) -> (r: Vec<String>)
    requires
        i < ir.nodes@.len(),
        lists_reads(*ir, lists@),
    ensures
        distinct(r@),
        forall|name: Seq<char>|
            #[trigger] texts(r@).contains(name) == dies_at(*ir, i as int, name),
{
    let total: usize = ir.nodes.len();
    let m: usize = lists[i].len();
    let ghost inputs = lists@[i as int]@;
    let mut r: Vec<String> = Vec::new();
    let mut k: usize = 0;
    while k < m
        invariant
            k <= m,
            i < total,
            total == ir.nodes@.len(),
            lists_reads(*ir, lists@),
            inputs == lists@[i as int]@,
            m == inputs.len(),
            distinct(r@),
            forall|name: Seq<char>|
                #[trigger] texts(r@).contains(name) == (dies_at(*ir, i as int, name) && texts(
                    inputs.take(k as int),
                ).contains(name)),
        decreases m - k,
    {
        let name: &String = &lists[i][k];
        let ghost was = r@;
        let ghost q = name@;
        proof {
            assert(texts(inputs)[k as int] == q);
            assert(texts(lists@[i as int]@).contains(q));
            assert(reads(*ir, i as int, q));
        }
        let fresh: bool = !has_name(&r, name.as_str());
        if fresh && !name.as_str().is_empty() && !read_later(ir, lists, i + 1, name.as_str())
            && !has_name(&ir.outputs, name.as_str()) && !ir.initializers.contains_key(
            name.as_str(),
        ) {
            r.push(name.clone());
            proof {
                assert(texts(r@) =~= texts(was).push(q));
                assert forall|a: int, b: int| 0 <= a < b < r@.len() implies (#[trigger] r@[a])@
                    != (#[trigger] r@[b])@ by {
                    if b == was.len() {
                        assert(texts(was)[a] == r@[a]@);
                        assert(texts(was).contains(r@[a]@));
                    }
                }
            }
        }
        proof {
            let next = inputs.take(k + 1);
            assert(texts(next) =~= texts(inputs.take(k as int)).push(q));
            assert forall|name: Seq<char>|
                #[trigger] texts(r@).contains(name) == (dies_at(*ir, i as int, name) && texts(
                    next,
                ).contains(name)) by {
                assert(texts(was).contains(name) == (dies_at(*ir, i as int, name) && texts(
                    inputs.take(k as int),
                ).contains(name)));
                lemma_push(texts(inputs.take(k as int)), q, name);
                if r@.len() > was.len() {
                    lemma_push(texts(was), q, name);
                }
            }
        }
        k += 1;
    }
    proof {
        assert(inputs.take(m as int) =~= inputs);
        assert forall|name: Seq<char>|
            #[trigger] texts(r@).contains(name) == dies_at(*ir, i as int, name) by {
            assert(texts(lists@[i as int]@).contains(name) == reads(*ir, i as int, name));
        }
    }
    r
}

proof fn lemma_push(s: Seq<Seq<char>>, x: Seq<char>, y: Seq<char>)
    ensures
        s.push(x).contains(y) == (s.contains(y) || x == y),
{
    let t = s.push(x);
    if s.contains(y) {
        let i = s.index_of(y);
        assert(t[i] == y);
    }
    if x == y {
        assert(t[s.len() as int] == y);
    }
    if t.contains(y) && x != y {
        let i = t.index_of(y);
        assert(s[i] == y);
    }
}

/// For each node, the values that it is the last to read, reads inside its subgraphs included.
pub fn dead_after(ir: &GraphIr) -> (r: Vec<Vec<String>>)
    ensures
        r@.len() == ir.nodes@.len(),
        forall|i: int| 0 <= i < r@.len() ==> distinct((#[trigger] r@[i])@),
        forall|i: int, name: Seq<char>|
            0 <= i < r@.len() ==> #[trigger] texts(r@[i]@).contains(name) == dies_at(*ir, i, name),
{
    let n: usize = ir.nodes.len();
    let lists = read_lists(ir);
    let mut r: Vec<Vec<String>> = Vec::new();
    let mut i: usize = 0;
    while i < n
        invariant
            i <= n,
            n == ir.nodes@.len(),
            lists_reads(*ir, lists@),
            r@.len() == i,
            forall|k: int| 0 <= k < i ==> distinct((#[trigger] r@[k])@),
            forall|k: int, name: Seq<char>|
                0 <= k < i ==> #[trigger] texts(r@[k]@).contains(name) == dies_at(*ir, k, name),
        decreases n - i,
    {
        let d = dead_at(ir, &lists, i);
        r.push(d);
        i += 1;
    }
    r
}

/// A value is given up once: no two nodes are the last to read it.
pub proof fn law_dies_once(ir: GraphIr, i: int, j: int, name: Seq<char>)
    requires
        0 <= i < ir.nodes@.len(),
        0 <= j < ir.nodes@.len(),
        dies_at(ir, i, name),
        dies_at(ir, j, name),
    ensures
        i == j,
{
    if i < j {
        assert(!reads(ir, j, name));
    } else if j < i {
        assert(!reads(ir, i, name));
    }
}

/// No node, and no subgraph of a node, reads a value after the node where it is given up, and what the graph gives out, or
/// holds as a constant, is never given up.
pub proof fn law_dead_is_unread(ir: GraphIr, i: int, j: int, name: Seq<char>)
    requires
        0 <= i < j < ir.nodes@.len(),
        dies_at(ir, i, name),
    ensures
        !reads(ir, j, name),
        !texts(ir.outputs@).contains(name),
        !ir.initializers.has(name),
{
}

/// Every value that is read, and that nothing else keeps, is given up at some node.
pub proof fn law_read_dies(ir: GraphIr, i: int, name: Seq<char>) -> (j: int)
    requires
        0 <= i < ir.nodes@.len(),
        name.len() > 0,
        reads(ir, i, name),
        !texts(ir.outputs@).contains(name),
        !ir.initializers.has(name),
    ensures
        i <= j < ir.nodes@.len(),
        dies_at(ir, j, name),
    decreases ir.nodes@.len() - i,
{
    if forall|j: int| i < j < ir.nodes@.len() ==> !#[trigger] reads(ir, j, name) {
        i
    } else {
        let k = choose|k: int| i < k < ir.nodes@.len() && #[trigger] reads(ir, k, name);
        law_read_dies(ir, k, name)
    }
}

} // verus!
