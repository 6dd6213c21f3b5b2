//! What the groups of [`crate::fusion`] keep to, said of the names that nodes read and make.

use crate::fusion::{
    adjacency, is_fusion, lemma_loop_free, loop_free, no_self_edge, predecessors_of, producer_of,
    producers_of,
};
use crate::fusion_laws::{
    acyclic, is_path, is_ring, law_groups_convex, law_groups_maximal, law_quotient_acyclic, ranked,
    reaches, ring_edge, step_at, together,
};
use vstd::prelude::*;

verus! {

/// Whether `u` is the last node that makes `name`; the empty name is no value.
pub open spec fn makes_last(outs: Seq<Seq<Seq<char>>>, name: Seq<char>, u: int) -> bool {
    &&& name.len() > 0
    &&& 0 <= u < outs.len()
    &&& outs[u].contains(name)
    &&& forall|w: int| u < w < outs.len() ==> !(#[trigger] outs[w]).contains(name)
}

/// Whether one of the inputs of node `v`, whichever it is, is made by node `u`.
pub open spec fn reads_from(
    ins: Seq<Seq<Seq<char>>>,
    outs: Seq<Seq<Seq<char>>>,
    v: int,
    u: int,
) -> bool {
    exists|j: int| 0 <= j < ins[v].len() && makes_last(outs, #[trigger] ins[v][j], u)
}

/// Whether nodes can be ranked so that each stands above all that it reads from: the graph has no
/// cycle.
pub open spec fn cycle_free(ins: Seq<Seq<Seq<char>>>, outs: Seq<Seq<Seq<char>>>) -> bool {
    exists|rank: Seq<int>| #[trigger] ranks_reads(ins, outs, rank)
}

pub open spec fn ranks_reads(
    ins: Seq<Seq<Seq<char>>>,
    outs: Seq<Seq<Seq<char>>>,
    rank: Seq<int>,
) -> bool {
    &&& rank.len() == ins.len()
    &&& forall|v: int| 0 <= v < rank.len() ==> 0 <= #[trigger] rank[v]
    &&& forall|v: int, u: int|
        0 <= v < ins.len() && #[trigger] reads_from(ins, outs, v, u) ==> rank[u] < rank[v]
}

proof fn lemma_producer(outs: Seq<Seq<Seq<char>>>, name: Seq<char>, u: usize)
    requires
        outs.len() <= usize::MAX,
    ensures
        (producer_of(outs, name) == Some(u)) == makes_last(outs, name, u as int),
    decreases outs.len(),
{
    if name.len() > 0 && outs.len() > 0 {
        let rest = outs.drop_last();
        let n = outs.len() - 1;
        assert(outs.last() == outs[n]);
        if !outs.last().contains(name) {
            lemma_producer(rest, name, u);
            if makes_last(rest, name, u as int) {
                assert(outs[u as int] == rest[u as int]);
                assert forall|w: int| u < w < outs.len() implies !(#[trigger] outs[w]).contains(
                    name,
                ) by {
                    if w < n {
                        assert(outs[w] == rest[w]);
                    }
                }
            }
            if makes_last(outs, name, u as int) {
                assert(outs[u as int] == rest[u as int]);
                assert forall|w: int| u < w < rest.len() implies !(#[trigger] rest[w]).contains(
                    name,
                ) by {
                    assert(outs[w] == rest[w]);
                }
            }
        } else if makes_last(outs, name, u as int) {
            assert(u == n) by {
                if u < n {
                    assert(!outs[n].contains(name));
                }
            }
        } else if u == n {
            assert(makes_last(outs, name, u as int));
        }
    }
}

proof fn lemma_producers(outs: Seq<Seq<Seq<char>>>, names: Seq<Seq<char>>, u: usize)
    requires
        outs.len() <= usize::MAX,
    ensures
        producers_of(outs, names).contains(u) == exists|j: int|
            0 <= j < names.len() && makes_last(outs, #[trigger] names[j], u as int),
    decreases names.len(),
{
    if names.len() > 0 {
        let rest = names.drop_last();
        let before = producers_of(outs, rest);
        let all = producers_of(outs, names);
        let last = names.len() - 1;
        lemma_producers(outs, rest, u);
        lemma_producer(outs, names.last(), u);
        assert(names.last() == names[last]);
        if before.contains(u) {
            let i = before.index_of(u);
            assert(all[i] == u);
            let j = choose|j: int|
                0 <= j < rest.len() && makes_last(outs, #[trigger] rest[j], u as int);
            assert(names[j] == rest[j]);
        }
        if producer_of(outs, names.last()) == Some(u) {
            assert(all[before.len() as int] == u);
        }
        if all.contains(u) && !before.contains(u) {
            let i = all.index_of(u);
            if i < before.len() {
                assert(before[i] == u);
            }
        }
        if exists|j: int| 0 <= j < names.len() && makes_last(outs, #[trigger] names[j], u as int) {
            let j = choose|j: int|
                0 <= j < names.len() && makes_last(outs, #[trigger] names[j], u as int);
            if j < last {
                assert(rest[j] == names[j]);
            }
        }
    }
}

/// **Every input makes an edge**: the predecessors of a node are exactly the nodes that it reads
/// from, through whichever of its inputs.
pub proof fn law_predecessors(
    ins: Seq<Seq<Seq<char>>>,
    outs: Seq<Seq<Seq<char>>>,
    v: int,
    u: usize,
)
    requires
        0 <= v < ins.len(),
        outs.len() <= usize::MAX,
    ensures
        predecessors_of(ins, outs)[v].contains(u) == reads_from(ins, outs, v, u as int),
{
    lemma_producers(outs, ins[v], u);
}

proof fn lemma_graph(ins: Seq<Seq<Seq<char>>>, outs: Seq<Seq<Seq<char>>>)
    requires
        ins.len() == outs.len(),
        ins.len() <= usize::MAX,
        cycle_free(ins, outs),
    ensures
        loop_free(predecessors_of(ins, outs)),
        acyclic(adjacency(predecessors_of(ins, outs))),
        predecessors_of(ins, outs).len() == ins.len(),
{
    let preds = predecessors_of(ins, outs);
    let adj = adjacency(preds);
    let rank = choose|rank: Seq<int>| #[trigger] ranks_reads(ins, outs, rank);
    assert forall|v: int| 0 <= v < preds.len() implies !(#[trigger] preds[v]).contains(
        v as usize,
    ) by {
        law_predecessors(ins, outs, v, v as usize);
        if preds[v].contains(v as usize) {
            assert(reads_from(ins, outs, v, v));
        }
    }
    assert(no_self_edge(preds));
    lemma_loop_free(ins, outs);
    assert forall|v: int, u: int| 0 <= v < adj.len() && #[trigger] adj[v].contains(u) implies 0 <= u
        < adj.len() && rank[u] < rank[v] by {
        assert(preds[v].contains(u as usize));
        law_predecessors(ins, outs, v, u as usize);
        assert(reads_from(ins, outs, v, u));
        let j = choose|j: int| 0 <= j < ins[v].len() && makes_last(outs, #[trigger] ins[v][j], u);
    }
    assert(ranked(adj, rank));
}

/// Whether each node of `path` reads from the one before it.
pub open spec fn is_chain(
    ins: Seq<Seq<Seq<char>>>,
    outs: Seq<Seq<Seq<char>>>,
    path: Seq<usize>,
) -> bool {
    &&& forall|i: int| 0 <= i < path.len() ==> (#[trigger] path[i]) < ins.len()
    &&& forall|i: int| 0 <= i < path.len() - 1 ==> #[trigger] chain_link(ins, outs, path, i)
}

pub open spec fn chain_link(
    ins: Seq<Seq<Seq<char>>>,
    outs: Seq<Seq<Seq<char>>>,
    path: Seq<usize>,
    i: int,
) -> bool {
    reads_from(ins, outs, path[i + 1] as int, path[i] as int)
}

proof fn lemma_chain_reaches(
    ins: Seq<Seq<Seq<char>>>,
    outs: Seq<Seq<Seq<char>>>,
    path: Seq<usize>,
    i: int,
    k: int,
)
    requires
        ins.len() == outs.len(),
        ins.len() <= usize::MAX,
        is_chain(ins, outs, path),
        0 <= i < k < path.len(),
    ensures
        reaches(adjacency(predecessors_of(ins, outs)), path[k] as int, path[i] as int),
{
    let preds = predecessors_of(ins, outs);
    let adj = adjacency(preds);
    let p = Seq::new((k - i + 1) as nat, |t: int| path[k - t] as int);
    assert forall|t: int| 0 <= t < p.len() - 1 implies #[trigger] step_at(adj, p, t) by {
        assert(chain_link(ins, outs, path, k - t - 1));
        assert(path[k - t] < ins.len());
        law_predecessors(ins, outs, path[k - t] as int, path[k - t - 1]);
    }
    assert(is_path(adj, p));
    assert(p[0] == path[k] && p.last() == path[i]);
}

/// **Groups are convex**: where each node of a path reads from the one before, through any of its
/// inputs, and the path begins and ends in one group, all of its nodes are in that group.
pub proof fn law_convex_by_names(
    groups: Seq<Seq<usize>>,
    ins: Seq<Seq<Seq<char>>>,
    outs: Seq<Seq<Seq<char>>>,
    supported: Seq<bool>,
    g: int,
    path: Seq<usize>,
    i: int,
)
    requires
        ins.len() == outs.len(),
        ins.len() <= usize::MAX,
        is_fusion(groups, predecessors_of(ins, outs), supported),
        cycle_free(ins, outs),
        is_chain(ins, outs, path),
        0 <= g < groups.len(),
        0 <= i < path.len(),
        groups[g].contains(path[0]),
        groups[g].contains(path.last()),
    ensures
        groups[g].contains(path[i]),
{
    lemma_graph(ins, outs);
    let last = path.len() - 1;
    if 0 < i < last {
        lemma_chain_reaches(ins, outs, path, 0, i);
        lemma_chain_reaches(ins, outs, path, i, last);
        law_groups_convex(
            groups,
            predecessors_of(ins, outs),
            supported,
            g,
            path.last(),
            path[i],
            path[0],
        );
    }
}

/// Whether the pairs of `ring`, each a node and one that it reads from, run round through two or
/// more vertices of the graph in which every group is contracted to one.
pub open spec fn is_name_ring(
    groups: Seq<Seq<usize>>,
    ins: Seq<Seq<Seq<char>>>,
    outs: Seq<Seq<Seq<char>>>,
    ring: Seq<(usize, usize)>,
) -> bool {
    &&& ring.len() > 0
    &&& forall|i: int| 0 <= i < ring.len() ==> #[trigger] name_edge(groups, ins, outs, ring, i)
}

pub open spec fn name_edge(
    groups: Seq<Seq<usize>>,
    ins: Seq<Seq<Seq<char>>>,
    outs: Seq<Seq<Seq<char>>>,
    ring: Seq<(usize, usize)>,
    i: int,
) -> bool {
    let (v, u) = ring[i];
    &&& v < ins.len()
    &&& reads_from(ins, outs, v as int, u as int)
    &&& !together(groups, v, u)
    &&& together(groups, u, ring[if i + 1 < ring.len() { i + 1 } else { 0 }].0)
}

proof fn lemma_same_ring(
    groups: Seq<Seq<usize>>,
    ins: Seq<Seq<Seq<char>>>,
    outs: Seq<Seq<Seq<char>>>,
    ring: Seq<(usize, usize)>,
)
    requires
        outs.len() <= usize::MAX,
    ensures
        is_name_ring(groups, ins, outs, ring) == is_ring(groups, predecessors_of(ins, outs), ring),
{
    let preds = predecessors_of(ins, outs);
    assert forall|i: int| 0 <= i < ring.len() implies name_edge(groups, ins, outs, ring, i)
        == ring_edge(groups, preds, ring, i) by {
        let (v, u) = ring[i];
        if v < ins.len() {
            law_predecessors(ins, outs, v as int, u);
        }
    }
    if is_name_ring(groups, ins, outs, ring) {
        assert forall|i: int| 0 <= i < ring.len() implies #[trigger] ring_edge(
            groups,
            preds,
            ring,
            i,
        ) by {
            assert(name_edge(groups, ins, outs, ring, i));
        }
    }
    if is_ring(groups, preds, ring) {
        assert forall|i: int| 0 <= i < ring.len() implies #[trigger] name_edge(
            groups,
            ins,
            outs,
            ring,
            i,
        ) by {
            assert(ring_edge(groups, preds, ring, i));
        }
    }
}

/// **The groups can be run one after the other**: with each contracted to one vertex, what nodes
/// read never leads round through two or more vertices.
pub proof fn law_no_ring_by_names(
    groups: Seq<Seq<usize>>,
    ins: Seq<Seq<Seq<char>>>,
    outs: Seq<Seq<Seq<char>>>,
    supported: Seq<bool>,
    ring: Seq<(usize, usize)>,
)
    requires
        ins.len() == outs.len(),
        ins.len() <= usize::MAX,
        is_fusion(groups, predecessors_of(ins, outs), supported),
        cycle_free(ins, outs),
    ensures
        !is_name_ring(groups, ins, outs, ring),
{
    lemma_graph(ins, outs);
    lemma_same_ring(groups, ins, outs, ring);
    law_quotient_acyclic(groups, predecessors_of(ins, outs), supported, ring);
}

/// **No two groups could be one**: where a member of one reads from a member of another,
/// contracting both to one vertex would close a ring.
pub proof fn law_maximal_by_names(
    groups: Seq<Seq<usize>>,
    ins: Seq<Seq<Seq<char>>>,
    outs: Seq<Seq<Seq<char>>>,
    supported: Seq<bool>,
    g: int,
    h: int,
    u: usize,
    v: usize,
)
    requires
        ins.len() == outs.len(),
        ins.len() <= usize::MAX,
        is_fusion(groups, predecessors_of(ins, outs), supported),
        cycle_free(ins, outs),
        0 <= g < groups.len(),
        0 <= h < groups.len(),
        g != h,
        groups[g].contains(u),
        groups[h].contains(v),
        v < ins.len(),
        reads_from(ins, outs, v as int, u as int),
    ensures
        exists|ring: Seq<(usize, usize)>|
            #[trigger] is_name_ring(groups.push(groups[g] + groups[h]), ins, outs, ring),
{
    lemma_graph(ins, outs);
    let preds = predecessors_of(ins, outs);
    law_predecessors(ins, outs, v as int, u);
    law_groups_maximal(groups, preds, supported, g, h, u, v);
    let joined = groups.push(groups[g] + groups[h]);
    let ring = choose|ring: Seq<(usize, usize)>| #[trigger] is_ring(joined, preds, ring);
    lemma_same_ring(joined, ins, outs, ring);
    assert(is_name_ring(joined, ins, outs, ring));
}

} // verus!
