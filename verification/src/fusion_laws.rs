//! What the blocks of [`crate::fusion`] keep to, whatever the graph.

use crate::fusion::{
    adjacency, all_below, block_reaches, edges_into, flipped, fusable_edges, fuse_pass, fuse_passes,
    fuse_step, groups_below, in_block, is_fusion, is_order, lemma_merge_roots, loop_free, members,
    absorbed, climbs, enters, leads, leads_on, rests_at, roots, settled, stuck, swept, traps,
};
use crate::union_find::{merged, reps_ok};
use vstd::prelude::*;

verus! {

// --- paths ------------------------------------------------------------------------------

/// Whether `adj` leads from `p[i]` to `p[i + 1]`.
pub open spec fn step_at(adj: Seq<Set<int>>, p: Seq<int>, i: int) -> bool {
    0 <= p[i] < adj.len() && adj[p[i]].contains(p[i + 1])
}

/// Whether `p` follows `adj` from node to node, in at least one step.
pub open spec fn is_path(adj: Seq<Set<int>>, p: Seq<int>) -> bool {
    &&& p.len() >= 2
    &&& forall|i: int| 0 <= i < p.len() - 1 ==> #[trigger] step_at(adj, p, i)
}

/// Whether a path leads from `v` to `x`.
pub open spec fn reaches(adj: Seq<Set<int>>, v: int, x: int) -> bool {
    exists|p: Seq<int>| #[trigger] is_path(adj, p) && p[0] == v && p.last() == x
}

/// Whether `rank` falls along every edge.
pub open spec fn ranked(adj: Seq<Set<int>>, rank: Seq<int>) -> bool {
    &&& rank.len() == adj.len()
    &&& forall|v: int| 0 <= v < rank.len() ==> 0 <= #[trigger] rank[v]
    &&& forall|v: int, u: int|
        0 <= v < adj.len() && #[trigger] adj[v].contains(u) ==> 0 <= u < adj.len() && rank[u]
            < rank[v]
}

/// Whether the graph has no cycle.
pub open spec fn acyclic(adj: Seq<Set<int>>) -> bool {
    exists|rank: Seq<int>| ranked(adj, rank)
}

pub proof fn lemma_reach_step(adj: Seq<Set<int>>, v: int, x: int)
    requires
        0 <= v < adj.len(),
    ensures
        reaches(adj, v, x) == exists|u: int|
            #[trigger] adj[v].contains(u) && (x == u || reaches(adj, u, x)),
{
    if reaches(adj, v, x) {
        let p = choose|p: Seq<int>| #[trigger] is_path(adj, p) && p[0] == v && p.last() == x;
        let u = p[1];
        assert(step_at(adj, p, 0));
        if p.len() > 2 {
            let q = p.drop_first();
            assert forall|i: int| 0 <= i < q.len() - 1 implies #[trigger] step_at(adj, q, i) by {
                assert(step_at(adj, p, i + 1));
            }
            assert(is_path(adj, q));
            assert(q[0] == u && q.last() == x);
        }
    }
    if exists|u: int| #[trigger] adj[v].contains(u) && (x == u || reaches(adj, u, x)) {
        let u = choose|u: int| #[trigger] adj[v].contains(u) && (x == u || reaches(adj, u, x));
        if x == u {
            let p = seq![v, u];
            assert(is_path(adj, p));
            assert(p[0] == v && p.last() == x);
        } else {
            let q = choose|q: Seq<int>| #[trigger] is_path(adj, q) && q[0] == u && q.last() == x;
            let p = seq![v] + q;
            assert forall|i: int| 0 <= i < p.len() - 1 implies #[trigger] step_at(adj, p, i) by {
                if i > 0 {
                    assert(step_at(adj, q, i - 1));
                }
            }
            assert(is_path(adj, p));
            assert(p[0] == v && p.last() == x);
        }
    }
}

pub proof fn lemma_reach_join(adj: Seq<Set<int>>, a: int, b: int, c: int)
    requires
        reaches(adj, a, b),
        reaches(adj, b, c),
    ensures
        reaches(adj, a, c),
{
    let p = choose|p: Seq<int>| #[trigger] is_path(adj, p) && p[0] == a && p.last() == b;
    let q = choose|q: Seq<int>| #[trigger] is_path(adj, q) && q[0] == b && q.last() == c;
    let r = p + q.drop_first();
    assert forall|i: int| 0 <= i < r.len() - 1 implies #[trigger] step_at(adj, r, i) by {
        if i < p.len() - 1 {
            assert(step_at(adj, p, i));
        } else {
            let j = i - (p.len() - 1);
            assert(step_at(adj, q, j));
        }
    }
    assert(is_path(adj, r));
    assert(r[0] == a && r.last() == c);
}

/// A path turned round is a path along the turned edges.
pub proof fn lemma_reach_flipped(adj: Seq<Set<int>>, v: int, x: int)
    requires
        forall|a: int, b: int| 0 <= a < adj.len() && #[trigger] adj[a].contains(b) ==> 0 <= b < adj.len(),
    ensures
        reaches(flipped(adj), v, x) == reaches(adj, x, v),
{
    let f = flipped(adj);
    if reaches(f, v, x) {
        let p = choose|p: Seq<int>| #[trigger] is_path(f, p) && p[0] == v && p.last() == x;
        let q = p.reverse();
        let n = p.len();
        assert forall|i: int| 0 <= i < q.len() - 1 implies #[trigger] step_at(adj, q, i) by {
            assert(step_at(f, p, n - 2 - i));
        }
        assert(is_path(adj, q));
        assert(q[0] == x && q.last() == v);
    }
    if reaches(adj, x, v) {
        let p = choose|p: Seq<int>| #[trigger] is_path(adj, p) && p[0] == x && p.last() == v;
        let q = p.reverse();
        let n = p.len();
        assert forall|i: int| 0 <= i < q.len() - 1 implies #[trigger] step_at(f, q, i) by {
            assert(step_at(adj, p, n - 2 - i));
        }
        assert(is_path(f, q));
        assert(q[0] == v && q.last() == x);
    }
}

proof fn lemma_rank_falls(adj: Seq<Set<int>>, rank: Seq<int>, p: Seq<int>, i: int)
    requires
        ranked(adj, rank),
        is_path(adj, p),
        0 < i < p.len(),
    ensures
        0 <= p[0] < adj.len(),
        0 <= p[i] < adj.len(),
        rank[p[i]] < rank[p[0]],
    decreases i,
{
    assert(step_at(adj, p, i - 1));
    if i > 1 {
        lemma_rank_falls(adj, rank, p, i - 1);
    }
}

/// In a graph without cycles no node reaches itself.
pub proof fn lemma_no_return(adj: Seq<Set<int>>, v: int)
    requires
        acyclic(adj),
    ensures
        !reaches(adj, v, v),
{
    let rank = choose|rank: Seq<int>| ranked(adj, rank);
    if reaches(adj, v, v) {
        let p = choose|p: Seq<int>| #[trigger] is_path(adj, p) && p[0] == v && p.last() == v;
        lemma_rank_falls(adj, rank, p, p.len() - 1);
    }
}

// --- sweeps gather what is reached ------------------------------------------------------

proof fn lemma_order_holds_all(order: Seq<usize>, adj: Seq<Set<int>>, k: int, x: int)
    requires
        is_order(order, adj, k),
        0 <= x < adj.len(),
    ensures
        exists|i: int| 0 <= i < order.len() && (#[trigger] order[i]) == x,
{
    let n = adj.len() as int;
    let s = order.map_values(|x: usize| x as int);
    assert(s.no_duplicates());
    s.unique_seq_to_set();
    let range = vstd::set_lib::set_int_range(0, n);
    vstd::set_lib::lemma_int_range(0, n);
    assert(s.to_set().subset_of(range));
    vstd::set_lib::lemma_subset_equality(s.to_set(), range);
    assert(range.contains(x));
    assert(s.to_set().contains(x));
    let i = s.index_of(x);
    assert(order[i] == x);
}

/// Without cycles no node is held back.
proof fn lemma_never_stuck(order: Seq<usize>, adj: Seq<Set<int>>, k: int, rank: Seq<int>, i: int)
    requires
        is_order(order, adj, k),
        ranked(adj, rank),
        0 <= i < order.len(),
    ensures
        i < k,
    decreases rank[order[i] as int],
{
    if k <= i {
        assert(stuck(order, adj, k, i));
        let u = choose|u: int|
            #[trigger] adj[order[i] as int].contains(u) && forall|j: int|
                0 <= j < k ==> (#[trigger] order[j]) != u;
        lemma_order_holds_all(order, adj, k, u);
        let j = choose|j: int| 0 <= j < order.len() && (#[trigger] order[j]) == u;
        assert(rank[order[j] as int] >= 0);
        lemma_never_stuck(order, adj, k, rank, j);
    }
}

/// A graph without cycles is sorted to the last node.
proof fn lemma_all_settled(order: Seq<usize>, adj: Seq<Set<int>>, k: int)
    requires
        is_order(order, adj, k),
        acyclic(adj),
    ensures
        k == order.len(),
{
    let rank = choose|rank: Seq<int>| ranked(adj, rank);
    if k < order.len() {
        lemma_never_stuck(order, adj, k, rank, k);
    }
}

/// After a sweep along a settled order each node holds exactly what it reaches.
proof fn lemma_swept(order: Seq<usize>, adj: Seq<Set<int>>, j: int)
    requires
        order.no_duplicates(),
        0 <= j <= order.len(),
        forall|i: int| 0 <= i < order.len() ==> (#[trigger] order[i]) < adj.len(),
        forall|i: int| 0 <= i < order.len() ==> #[trigger] settled(order, adj, i),
    ensures
        swept(order.take(j), adj).len() == adj.len(),
        forall|i: int, x: int|
            0 <= i < j ==> (#[trigger] swept(order.take(j), adj)[order[i] as int].contains(x)
                == reaches(adj, order[i] as int, x)),
        forall|i: int, x: int|
            j <= i < order.len() ==> !(#[trigger] swept(order.take(j), adj)[order[i] as int].contains(x)),
    decreases j,
{
    if j == 0 {
    } else {
        lemma_swept(order, adj, j - 1);
        let p = swept(order.take(j - 1), adj);
        let v = order[j - 1] as int;
        assert(order.take(j).drop_last() =~= order.take(j - 1));
        assert(order.take(j).last() == v);
        let now = swept(order.take(j), adj);
        assert(now == p.update(v, absorbed(p, adj, v)));
        assert(settled(order, adj, j - 1));
        assert forall|x: int| now[v].contains(x) == reaches(adj, v, x) by {
            lemma_reach_step(adj, v, x);
            assert(!p[order[j - 1] as int].contains(x));
            assert forall|u: int| #[trigger] adj[v].contains(u) implies p[u].contains(x) == reaches(
                adj,
                u,
                x,
            ) by {
                let i = choose|i: int| 0 <= i < j - 1 && (#[trigger] order[i]) == u;
                assert(p[order[i] as int].contains(x) == reaches(adj, order[i] as int, x));
            }
            if now[v].contains(x) {
                let u = choose|u: int| #[trigger] adj[v].contains(u) && (x == u || p[u].contains(x));
                assert(adj[v].contains(u) && (x == u || reaches(adj, u, x)));
            }
            if reaches(adj, v, x) {
                let u = choose|u: int|
                    #[trigger] adj[v].contains(u) && (x == u || reaches(adj, u, x));
                assert(adj[v].contains(u) && (x == u || p[u].contains(x)));
            }
        }
        assert forall|i: int, x: int| 0 <= i < j implies (
        #[trigger] now[order[i] as int].contains(x) == reaches(adj, order[i] as int, x)) by {
            if i < j - 1 {
                assert(order[i] != order[j - 1]);
                assert(p[order[i] as int].contains(x) == reaches(adj, order[i] as int, x));
            }
        }
        assert forall|i: int, x: int| j <= i < order.len() implies !(
        #[trigger] now[order[i] as int].contains(x)) by {
            assert(order[i] != order[j - 1]);
            assert(!p[order[i] as int].contains(x));
        }
    }
}

/// In a graph without cycles, what a node gathers upstream is what leads to it.
pub proof fn law_ancestors(order: Seq<usize>, adj: Seq<Set<int>>, k: int, v: int, x: int)
    requires
        is_order(order, adj, k),
        acyclic(adj),
        0 <= v < adj.len(),
    ensures
        swept(order, adj).len() == adj.len(),
        swept(order, adj)[v].contains(x) == reaches(adj, v, x),
{
    lemma_all_settled(order, adj, k);
    lemma_swept(order, adj, order.len() as int);
    assert(order.take(order.len() as int) =~= order);
    lemma_order_holds_all(order, adj, k, v);
    let i = choose|i: int| 0 <= i < order.len() && (#[trigger] order[i]) == v;
    assert(swept(order, adj)[order[i] as int].contains(x) == reaches(adj, order[i] as int, x));
}

/// In a graph without cycles, what a node gathers downstream is what it leads to.
pub proof fn law_descendants(order: Seq<usize>, adj: Seq<Set<int>>, k: int, v: int, x: int)
    requires
        is_order(order, adj, k),
        acyclic(adj),
        0 <= v < adj.len(),
    ensures
        swept(order.reverse(), flipped(adj)).len() == adj.len(),
        swept(order.reverse(), flipped(adj))[v].contains(x) == reaches(adj, x, v),
{
    let rank = choose|rank: Seq<int>| ranked(adj, rank);
    lemma_all_settled(order, adj, k);
    let back = order.reverse();
    let f = flipped(adj);
    let n = order.len() as int;
    assert forall|i: int, j: int| 0 <= i < n && 0 <= j < n && i != j implies back[i] != back[j] by {
        assert(order[n - 1 - i] != order[n - 1 - j]);
    }
    assert forall|i: int| 0 <= i < n implies (#[trigger] back[i]) < f.len() by {
        assert(back[i] == order[n - 1 - i]);
    }
    assert forall|i: int| 0 <= i < n implies #[trigger] settled(back, f, i) by {
        let a = back[i] as int;
        assert(a == order[n - 1 - i]);
        assert forall|s: int| #[trigger] f[back[i] as int].contains(s) implies exists|j: int|
            0 <= j < i && (#[trigger] back[j]) == s by {
            assert(adj[s].contains(a));
            lemma_order_holds_all(order, adj, k, s);
            let b = choose|b: int| 0 <= b < n && (#[trigger] order[b]) == s;
            assert(settled(order, adj, b));
            assert(adj[order[b] as int].contains(a));
            let c = choose|c: int| 0 <= c < b && (#[trigger] order[c]) == a;
            assert(c == n - 1 - i);
            assert(back[n - 1 - b] == s);
        }
    }
    lemma_swept(back, f, n);
    assert(back.take(n) =~= back);
    lemma_order_holds_all(order, adj, k, v);
    let i = choose|i: int| 0 <= i < n && (#[trigger] order[i]) == v;
    assert(back[n - 1 - i] == v);
    assert(swept(back, f)[back[n - 1 - i] as int].contains(x) == reaches(
        f,
        back[n - 1 - i] as int,
        x,
    ));
    lemma_reach_flipped(adj, v, x);
}

// --- what the passes work with ----------------------------------------------------------

/// Whether the two tables say, for each node, what leads to it and what it leads to.
spec fn tables_match(adj: Seq<Set<int>>, anc: Seq<Set<int>>, desc: Seq<Set<int>>) -> bool {
    &&& anc.len() == adj.len()
    &&& desc.len() == adj.len()
    &&& forall|v: int, x: int|
        0 <= v < adj.len() ==> (#[trigger] anc[v].contains(x) == reaches(adj, v, x))
    &&& forall|v: int, x: int|
        0 <= v < adj.len() ==> (#[trigger] desc[v].contains(x) == reaches(adj, x, v))
}

proof fn lemma_edges_into(preds: Seq<usize>, v: usize, supported: Seq<bool>, i: int)
    requires
        0 <= i < edges_into(preds, v, supported).len(),
    ensures
        edges_into(preds, v, supported)[i].1 == v,
        supported[v as int],
        supported[edges_into(preds, v, supported)[i].0 as int],
        preds.contains(edges_into(preds, v, supported)[i].0),
    decreases preds.len(),
{
    if preds.len() > 0 {
        let rest = preds.drop_last();
        let e = edges_into(rest, v, supported);
        if i < e.len() {
            lemma_edges_into(rest, v, supported, i);
            let k = rest.index_of(e[i].0);
            assert(preds[k] == e[i].0);
        } else {
            assert(preds[preds.len() - 1] == preds.last());
        }
    }
}

/// Every edge along which blocks grow is an edge of the graph between supported nodes.
pub proof fn law_fusable_edges(preds: Seq<Seq<usize>>, supported: Seq<bool>, i: int)
    requires
        preds.len() <= usize::MAX,
        0 <= i < fusable_edges(preds, supported).len(),
    ensures
        fusable_edges(preds, supported)[i].1 < preds.len(),
        preds[fusable_edges(preds, supported)[i].1 as int].contains(fusable_edges(preds, supported)[i].0),
        supported[fusable_edges(preds, supported)[i].0 as int],
        supported[fusable_edges(preds, supported)[i].1 as int],
    decreases preds.len(),
{
    if preds.len() > 0 {
        let first = fusable_edges(preds.drop_last(), supported);
        if i < first.len() {
            law_fusable_edges(preds.drop_last(), supported, i);
        } else {
            lemma_edges_into(
                preds.last(),
                (preds.len() - 1) as usize,
                supported,
                i - first.len(),
            );
        }
    }
}

proof fn lemma_edge_into(preds: Seq<usize>, v: usize, supported: Seq<bool>, u: usize)
    requires
        preds.contains(u),
        supported[u as int],
        supported[v as int],
    ensures
        edges_into(preds, v, supported).contains((u, v)),
    decreases preds.len(),
{
    let rest = preds.drop_last();
    let e = edges_into(rest, v, supported);
    let all = edges_into(preds, v, supported);
    if preds.last() == u {
        assert(all[e.len() as int] == (u, v));
    } else {
        let k = preds.index_of(u);
        assert(rest[k] == u);
        lemma_edge_into(rest, v, supported, u);
        let i = e.index_of((u, v));
        assert(all[i] == (u, v));
    }
}

/// Blocks can grow along every edge of the graph between supported nodes.
pub proof fn law_edges_fusable(preds: Seq<Seq<usize>>, supported: Seq<bool>, u: usize, v: usize)
    requires
        preds.len() <= usize::MAX,
        v < preds.len(),
        preds[v as int].contains(u),
        supported[u as int],
        supported[v as int],
    ensures
        fusable_edges(preds, supported).contains((u, v)),
    decreases preds.len(),
{
    let first = fusable_edges(preds.drop_last(), supported);
    let into = edges_into(preds.last(), (preds.len() - 1) as usize, supported);
    let all = fusable_edges(preds, supported);
    assert(all == first + into);
    if v < preds.len() - 1 {
        assert(preds.drop_last()[v as int] == preds[v as int]);
        law_edges_fusable(preds.drop_last(), supported, u, v);
        let i = first.index_of((u, v));
        assert(all[i] == (u, v));
    } else {
        lemma_edge_into(preds.last(), v, supported, u);
        let i = into.index_of((u, v));
        assert(all[first.len() + i] == (u, v));
    }
}

proof fn lemma_edges_bound(preds: Seq<Seq<usize>>, supported: Seq<bool>)
    requires
        loop_free(preds),
        preds.len() <= usize::MAX,
    ensures
        forall|i: int|
            0 <= i < fusable_edges(preds, supported).len() ==> (#[trigger] fusable_edges(preds, supported)[i]).0
                < preds.len() && fusable_edges(preds, supported)[i].1 < preds.len(),
{
    let edges = fusable_edges(preds, supported);
    assert forall|i: int| 0 <= i < edges.len() implies (#[trigger] edges[i]).0 < preds.len()
        && edges[i].1 < preds.len() by {
        law_fusable_edges(preds, supported, i);
        let l = preds[edges[i].1 as int];
        assert(all_below(l, preds.len() as int));
        let k = l.index_of(edges[i].0);
        assert(l[k] == edges[i].0);
    }
}

/// In a graph without cycles the sweeps gather exactly what leads to each node and what it
/// leads to.
proof fn lemma_tables_match(preds: Seq<Seq<usize>>, order: Seq<usize>, k: int)
    requires
        is_order(order, adjacency(preds), k),
        acyclic(adjacency(preds)),
    ensures
        tables_match(
            adjacency(preds),
            swept(order, adjacency(preds)),
            swept(order.reverse(), flipped(adjacency(preds))),
        ),
{
    let adj = adjacency(preds);
    let anc = swept(order, adj);
    let desc = swept(order.reverse(), flipped(adj));
    assert forall|v: int, x: int| 0 <= v < adj.len() implies (#[trigger] anc[v].contains(x)
        == reaches(adj, v, x)) by {
        law_ancestors(order, adj, k, v, x);
    }
    assert forall|v: int, x: int| 0 <= v < adj.len() implies (#[trigger] desc[v].contains(x)
        == reaches(adj, x, v)) by {
        law_descendants(order, adj, k, v, x);
    }
    lemma_swept_len(order, adj);
    assert forall|i: int| 0 <= i < order.len() implies (#[trigger] order.reverse()[i])
        < adj.len() by {
        assert(order.reverse()[i] == order[order.len() - 1 - i]);
    }
    lemma_swept_len(order.reverse(), flipped(adj));
}

proof fn lemma_swept_len(order: Seq<usize>, adj: Seq<Set<int>>)
    requires
        forall|i: int| 0 <= i < order.len() ==> (#[trigger] order[i]) < adj.len(),
    ensures
        swept(order, adj).len() == adj.len(),
    decreases order.len(),
{
    if order.len() > 0 {
        lemma_swept_len(order.drop_last(), adj);
    }
}

// --- nothing more can be joined ---------------------------------------------------------

proof fn lemma_step_roots(
    rep: Seq<usize>,
    anc: Seq<Set<int>>,
    desc: Seq<Set<int>>,
    e: (usize, usize),
)
    requires
        reps_ok(rep),
        e.0 < rep.len(),
        e.1 < rep.len(),
    ensures
        fuse_step(rep, anc, desc, e).len() == rep.len(),
        reps_ok(fuse_step(rep, anc, desc, e)),
        fuse_step(rep, anc, desc, e) == rep || roots(
            fuse_step(rep, anc, desc, e),
            rep.len() as int,
        ) < roots(rep, rep.len() as int),
{
    let ra = rep[e.0 as int];
    let rb = rep[e.1 as int];
    if ra != rb && !traps(rep, anc, desc, ra, rb) {
        lemma_merge_roots(rep, ra, rb, rep.len() as int);
    }
}

proof fn lemma_pass_roots(
    rep: Seq<usize>,
    anc: Seq<Set<int>>,
    desc: Seq<Set<int>>,
    edges: Seq<(usize, usize)>,
)
    requires
        reps_ok(rep),
        forall|i: int| 0 <= i < edges.len() ==> (#[trigger] edges[i]).0 < rep.len() && edges[i].1 < rep.len(),
    ensures
        fuse_pass(rep, anc, desc, edges).len() == rep.len(),
        reps_ok(fuse_pass(rep, anc, desc, edges)),
        fuse_pass(rep, anc, desc, edges) == rep || roots(
            fuse_pass(rep, anc, desc, edges),
            rep.len() as int,
        ) < roots(rep, rep.len() as int),
        fuse_pass(rep, anc, desc, edges) == rep ==> forall|i: int|
            0 <= i < edges.len() ==> fuse_step(rep, anc, desc, #[trigger] edges[i]) == rep,
    decreases edges.len(),
{
    if edges.len() > 0 {
        let rest = edges.drop_last();
        lemma_pass_roots(rep, anc, desc, rest);
        let mid = fuse_pass(rep, anc, desc, rest);
        lemma_step_roots(mid, anc, desc, edges.last());
        if fuse_pass(rep, anc, desc, edges) == rep {
            assert(mid == rep);
            assert forall|i: int| 0 <= i < edges.len() implies fuse_step(
                rep,
                anc,
                desc,
                #[trigger] edges[i],
            ) == rep by {
                if i < rest.len() {
                    assert(rest[i] == edges[i]);
                }
            }
        }
    }
}

proof fn lemma_passes_reps(
    n: nat,
    anc: Seq<Set<int>>,
    desc: Seq<Set<int>>,
    edges: Seq<(usize, usize)>,
    p: nat,
)
    requires
        n <= usize::MAX,
        forall|i: int| 0 <= i < edges.len() ==> (#[trigger] edges[i]).0 < n && edges[i].1 < n,
    ensures
        fuse_passes(n, anc, desc, edges, p).len() == n,
        reps_ok(fuse_passes(n, anc, desc, edges, p)),
    decreases p,
{
    if p > 0 {
        lemma_passes_reps(n, anc, desc, edges, (p - 1) as nat);
        lemma_pass_roots(fuse_passes(n, anc, desc, edges, (p - 1) as nat), anc, desc, edges);
    }
}

/// At rest, joining the blocks at the two ends of an edge would close a ring.
proof fn lemma_refused(
    rep: Seq<usize>,
    anc: Seq<Set<int>>,
    desc: Seq<Set<int>>,
    edges: Seq<(usize, usize)>,
    i: int,
)
    requires
        reps_ok(rep),
        forall|i: int| 0 <= i < edges.len() ==> (#[trigger] edges[i]).0 < rep.len() && edges[i].1 < rep.len(),
        fuse_pass(rep, anc, desc, edges) == rep,
        0 <= i < edges.len(),
    ensures
        rep[edges[i].0 as int] == rep[edges[i].1 as int] || traps(
            rep,
            anc,
            desc,
            rep[edges[i].0 as int],
            rep[edges[i].1 as int],
        ),
{
    lemma_pass_roots(rep, anc, desc, edges);
    let e = edges[i];
    let ra = rep[e.0 as int];
    let rb = rep[e.1 as int];
    assert(fuse_step(rep, anc, desc, e) == rep);
    if ra != rb && !traps(rep, anc, desc, ra, rb) {
        assert(merged(rep, ra, rb)[e.1 as int] == ra);
    }
}

// --- the groups partition the supported nodes -------------------------------------------

proof fn lemma_members(rep: Seq<usize>, supported: Seq<bool>, r: int, k: int)
    requires
        0 <= k <= rep.len(),
        rep.len() <= usize::MAX,
    ensures
        forall|x: int|
            0 <= x <= usize::MAX ==> (#[trigger] members(rep, supported, r, k).contains(x as usize) == (x < k
                && supported[x] && rep[x] == r)),
        forall|i: int, j: int|
            0 <= i < j < members(rep, supported, r, k).len() ==> members(rep, supported, r, k)[i]
                < members(rep, supported, r, k)[j],
        forall|i: int| 0 <= i < members(rep, supported, r, k).len() ==> (#[trigger] members(rep, supported, r, k)[i]) < k,
    decreases k,
{
    if k > 0 {
        lemma_members(rep, supported, r, k - 1);
        let rest = members(rep, supported, r, k - 1);
        let all = members(rep, supported, r, k);
        assert forall|x: int| 0 <= x <= usize::MAX implies (#[trigger] all.contains(x as usize) == (x < k
            && supported[x] && rep[x] == r)) by {
            assert(rest.contains(x as usize) == (x < k - 1 && supported[x] && rep[x] == r));
            if supported[k - 1] && rep[k - 1] == r {
                if rest.contains(x as usize) {
                    let i = rest.index_of(x as usize);
                    assert(all[i] == x as usize);
                }
                assert(all[rest.len() as int] == (k - 1) as usize);
                if all.contains(x as usize) {
                    let i = all.index_of(x as usize);
                    if i < rest.len() {
                        assert(rest[i] == x as usize);
                    }
                }
            }
        }
    }
}

/// Whether `group` is a whole block of supported nodes with representative below `r`.
spec fn group_ok(rep: Seq<usize>, supported: Seq<bool>, group: Seq<usize>, r: int) -> bool {
    &&& group.len() > 0
    &&& rep[group[0] as int] < r
    &&& group == members(rep, supported, rep[group[0] as int] as int, rep.len() as int)
}

proof fn lemma_groups(rep: Seq<usize>, supported: Seq<bool>, r: int)
    requires
        0 <= r <= rep.len(),
        rep.len() <= usize::MAX,
    ensures
        forall|g: int|
            0 <= g < groups_below(rep, supported, r).len() ==> group_ok(
                rep,
                supported,
                #[trigger] groups_below(rep, supported, r)[g],
                r,
            ),
        forall|g: int, h: int|
            0 <= g < h < groups_below(rep, supported, r).len()
                ==> rep[(#[trigger] groups_below(rep, supported, r)[g])[0] as int]
                < rep[(#[trigger] groups_below(rep, supported, r)[h])[0] as int],
        forall|q: int|
            0 <= q < r && (#[trigger] members(rep, supported, q, rep.len() as int)).len() > 0
                ==> groups_below(rep, supported, r).contains(
                members(rep, supported, q, rep.len() as int),
            ),
    decreases r,
{
    let n = rep.len() as int;
    if r > 0 {
        lemma_groups(rep, supported, r - 1);
        let rest = groups_below(rep, supported, r - 1);
        let all = groups_below(rep, supported, r);
        let last = members(rep, supported, r - 1, n);
        lemma_members(rep, supported, r - 1, n);
        if last.len() > 0 {
            assert(all == rest.push(last));
            let x = last[0] as int;
            assert(last.contains(x as usize));
            assert(group_ok(rep, supported, last, r));
            assert forall|g: int| 0 <= g < all.len() implies group_ok(
                rep,
                supported,
                #[trigger] all[g],
                r,
            ) by {
                if g < rest.len() {
                    assert(group_ok(rep, supported, rest[g], r - 1));
                }
            }
            assert forall|g: int, h: int| 0 <= g < h < all.len() implies rep[(
            #[trigger] all[g])[0] as int] < rep[(#[trigger] all[h])[0] as int] by {
                assert(all[g] == rest[g]);
                assert(group_ok(rep, supported, rest[g], r - 1));
                if h < rest.len() {
                    assert(all[h] == rest[h]);
                }
            }
            assert forall|q: int|
                0 <= q < r && (#[trigger] members(rep, supported, q, n)).len() > 0 implies all.contains(
                members(rep, supported, q, n),
            ) by {
                if q < r - 1 {
                    let g = rest.index_of(members(rep, supported, q, n));
                    assert(all[g] == rest[g]);
                } else {
                    assert(all[rest.len() as int] == last);
                }
            }
        } else {
            assert(all == rest);
            assert forall|g: int| 0 <= g < all.len() implies group_ok(
                rep,
                supported,
                #[trigger] all[g],
                r,
            ) by {
                assert(group_ok(rep, supported, rest[g], r - 1));
            }
        }
    }
}

/// Every supported node is in exactly one group, together with the supported nodes of its
/// block; unsupported nodes are in none; each group is in index order.
pub proof fn law_groups_partition(
    groups: Seq<Seq<usize>>,
    preds: Seq<Seq<usize>>,
    supported: Seq<bool>,
)
    requires
        is_fusion(groups, preds, supported),
        loop_free(preds),
        preds.len() <= usize::MAX,
    ensures
        forall|g: int, i: int|
            0 <= g < groups.len() && 0 <= i < groups[g].len() ==> (#[trigger] groups[g][i])
                < preds.len() && supported[groups[g][i] as int],
        forall|x: int|
            0 <= x < preds.len() && #[trigger] supported[x] ==> exists|g: int|
                0 <= g < groups.len() && (#[trigger] groups[g]).contains(x as usize),
        forall|g: int, h: int, x: usize|
            0 <= g < groups.len() && 0 <= h < groups.len() && #[trigger] groups[g].contains(x)
                && #[trigger] groups[h].contains(x) ==> g == h,
        forall|g: int, i: int, j: int|
            0 <= g < groups.len() && 0 <= i < j < groups[g].len() ==> (#[trigger] groups[g][i]) < (
            #[trigger] groups[g][j]),
        forall|g: int| 0 <= g < groups.len() ==> (#[trigger] groups[g]).len() > 0,
{
    let (rep, order, k, p) = choose|rep: Seq<usize>, order: Seq<usize>, k: int, p: nat|
        #[trigger] rests_at(rep, preds, supported, order, k, p) && groups == groups_below(
            rep,
            supported,
            rep.len() as int,
        );
    let n = preds.len() as int;
    let adj = adjacency(preds);
    let anc = swept(order, adj);
    let desc = swept(order.reverse(), flipped(adj));
    lemma_edges_bound(preds, supported);
    lemma_passes_reps(preds.len(), anc, desc, fusable_edges(preds, supported), p);
    lemma_groups(rep, supported, n);
    assert forall|g: int, i: int| 0 <= g < groups.len() && 0 <= i < groups[g].len() implies (
    #[trigger] groups[g][i]) < preds.len() && supported[groups[g][i] as int]
        && rep[groups[g][i] as int] == rep[groups[g][0] as int] by {
        lemma_group(rep, supported, groups[g], i);
    }
    assert forall|x: int| 0 <= x < preds.len() && #[trigger] supported[x] implies exists|g: int|
        0 <= g < groups.len() && (#[trigger] groups[g]).contains(x as usize) by {
        let q = rep[x] as int;
        lemma_members(rep, supported, q, n);
        let m = members(rep, supported, q, n);
        assert(m.contains(x as usize));
        let g = groups.index_of(m);
        assert(groups[g].contains(x as usize));
    }
    assert forall|g: int, h: int, x: usize|
        0 <= g < groups.len() && 0 <= h < groups.len() && #[trigger] groups[g].contains(x)
            && #[trigger] groups[h].contains(x) implies g == h by {
        let i = groups[g].index_of(x);
        let j = groups[h].index_of(x);
        lemma_group(rep, supported, groups[g], i);
        lemma_group(rep, supported, groups[h], j);
    }
    assert forall|g: int, i: int, j: int|
        0 <= g < groups.len() && 0 <= i < j < groups[g].len() implies (#[trigger] groups[g][i]) < (
    #[trigger] groups[g][j]) by {
        lemma_members(rep, supported, rep[groups[g][0] as int] as int, n);
        assert(group_ok(rep, supported, groups[g], n));
    }
    assert forall|g: int| 0 <= g < groups.len() implies (#[trigger] groups[g]).len() > 0 by {
        assert(group_ok(rep, supported, groups[g], n));
    }
}

/// A member of a group is a supported node of the group's block.
proof fn lemma_group(rep: Seq<usize>, supported: Seq<bool>, group: Seq<usize>, i: int)
    requires
        group_ok(rep, supported, group, rep.len() as int),
        rep.len() <= usize::MAX,
        0 <= i < group.len(),
    ensures
        group[i] < rep.len(),
        supported[group[i] as int],
        rep[group[i] as int] == rep[group[0] as int],
{
    let q = rep[group[0] as int] as int;
    lemma_members(rep, supported, q, rep.len() as int);
    let x = group[i] as int;
    assert(group.contains(x as usize));
}

// --- cycles among blocks ----------------------------------------------------------------

/// Whether a member of block `c` depends directly on a member of block `d`.
pub open spec fn block_step(rep: Seq<usize>, adj: Seq<Set<int>>, c: usize, d: usize) -> bool {
    exists|u: int, v: int|
        0 <= u < rep.len() && 0 <= v < rep.len() && rep[u] == c && rep[v] == d
            && #[trigger] adj[u].contains(v)
}

/// Whether each block of `w` depends directly on the next, another one.
pub open spec fn block_walk(rep: Seq<usize>, adj: Seq<Set<int>>, w: Seq<usize>) -> bool {
    forall|i: int| 0 <= i < w.len() - 1 ==> #[trigger] block_hop(rep, adj, w, i)
}

pub open spec fn block_hop(rep: Seq<usize>, adj: Seq<Set<int>>, w: Seq<usize>, i: int) -> bool {
    w[i] != w[i + 1] && block_step(rep, adj, w[i], w[i + 1])
}

/// Whether no walk from block to block comes back to where it began.
pub open spec fn ringless(rep: Seq<usize>, adj: Seq<Set<int>>) -> bool {
    forall|w: Seq<usize>|
        #[trigger] block_walk(rep, adj, w) && w.len() >= 2 ==> w[0] != w.last()
}

/// The first place after `a`, up to `z`, at which `w` is at `g`.
proof fn next_at(w: Seq<usize>, a: int, z: int, g: usize) -> (b: int)
    requires
        0 <= a < z < w.len(),
        w[z] == g,
    ensures
        a < b <= z,
        w[b] == g,
        forall|t: int| a < t < b ==> (#[trigger] w[t]) != g,
    decreases z - a,
{
    if w[a + 1] == g {
        a + 1
    } else {
        let b = next_at(w, a + 1, z, g);
        assert forall|t: int| a < t < b implies (#[trigger] w[t]) != g by {}
        b
    }
}

/// A step between blocks that the joined one is not part of was there before.
proof fn lemma_step_before(
    rep: Seq<usize>,
    adj: Seq<Set<int>>,
    ra: usize,
    rb: usize,
    c: usize,
    d: usize,
)
    requires
        rep.len() == adj.len(),
        c != ra,
        d != ra,
        block_step(merged(rep, ra, rb), adj, c, d),
    ensures
        c != rb || ra == rb,
        block_step(rep, adj, c, d),
{
    let now = merged(rep, ra, rb);
    let (u, v) = choose|u: int, v: int|
        0 <= u < now.len() && 0 <= v < now.len() && now[u] == c && now[v] == d
            && #[trigger] adj[u].contains(v);
    assert(rep[u] == c && rep[v] == d && adj[u].contains(v));
}

/// A ring through the joined block is what the join was refused for.
proof fn lemma_ring_traps(
    rep: Seq<usize>,
    adj: Seq<Set<int>>,
    anc: Seq<Set<int>>,
    desc: Seq<Set<int>>,
    ra: usize,
    rb: usize,
    w: Seq<usize>,
    a: int,
    b: int,
)
    requires
        rep.len() == adj.len(),
        reps_ok(rep),
        ra != rb,
        tables_match(adj, anc, desc),
        block_walk(merged(rep, ra, rb), adj, w),
        0 <= a < b < w.len(),
        w[a] == ra,
        w[b] == ra,
        forall|t: int| a < t < b ==> (#[trigger] w[t]) != ra,
    ensures
        traps(rep, anc, desc, ra, rb),
{
    let now = merged(rep, ra, rb);
    assert(block_hop(now, adj, w, a));
    assert(b > a + 1);
    let way = w.subrange(a + 1, b);
    // out of the joined block
    let (u, v) = choose|u: int, v: int|
        0 <= u < now.len() && 0 <= v < now.len() && now[u] == w[a] && now[v] == w[a + 1]
            && #[trigger] adj[u].contains(v);
    lemma_reach_step(adj, u, v);
    assert(anc[u].contains(v));
    assert(in_block(rep, ra, rb, u));
    assert(w[a + 1] != ra);
    assert(rep[v] == way[0]);
    assert(block_reaches(rep, anc, ra, rb, v));
    assert(enters(rep, anc, ra, rb, way[0]));
    // from block to block
    assert forall|i: int| 0 <= i < way.len() implies (#[trigger] way[i]) != ra && way[i] != rb by {
        assert(way[i] == w[a + 1 + i]);
        assert(block_hop(now, adj, w, a + 1 + i));
        let (x, y) = choose|x: int, y: int|
            0 <= x < now.len() && 0 <= y < now.len() && now[x] == w[a + 1 + i] && now[y] == w[a + 2
                + i] && #[trigger] adj[x].contains(y);
        assert(now[x] != rb);
    }
    assert forall|i: int| 0 < i < way.len() implies leads_on(
        rep,
        anc,
        way[i - 1],
        #[trigger] way[i],
    ) by {
        assert(way[i] == w[a + 1 + i] && way[i - 1] == w[a + i]);
        assert(block_hop(now, adj, w, a + i));
        lemma_step_before(rep, adj, ra, rb, w[a + i], w[a + i + 1]);
        let (x, y) = choose|x: int, y: int|
            0 <= x < rep.len() && 0 <= y < rep.len() && rep[x] == way[i - 1] && rep[y] == way[i]
                && #[trigger] adj[x].contains(y);
        lemma_reach_step(adj, x, y);
        assert(anc[x].contains(y));
        assert(leads(rep, anc, way[i - 1] as int, y));
    }
    assert(climbs(rep, anc, ra, rb, way));
    // back into it
    assert(block_hop(now, adj, w, b - 1));
    let (x, y) = choose|x: int, y: int|
        0 <= x < now.len() && 0 <= y < now.len() && now[x] == w[b - 1] && now[y] == w[b]
            && #[trigger] adj[x].contains(y);
    lemma_reach_step(adj, x, y);
    assert(desc[y].contains(x));
    assert(in_block(rep, ra, rb, y));
    assert(w[b - 1] != ra);
    assert(way.last() == w[b - 1]);
    assert(rep[x] == way.last());
    assert(block_reaches(rep, desc, ra, rb, x));
    assert(enters(rep, desc, ra, rb, way.last()));
}

proof fn lemma_step_ringless(
    rep: Seq<usize>,
    adj: Seq<Set<int>>,
    anc: Seq<Set<int>>,
    desc: Seq<Set<int>>,
    e: (usize, usize),
)
    requires
        rep.len() == adj.len(),
        reps_ok(rep),
        e.0 < rep.len(),
        e.1 < rep.len(),
        tables_match(adj, anc, desc),
        ringless(rep, adj),
    ensures
        ringless(fuse_step(rep, anc, desc, e), adj),
{
    let ra = rep[e.0 as int];
    let rb = rep[e.1 as int];
    let now = fuse_step(rep, anc, desc, e);
    if ra != rb && !traps(rep, anc, desc, ra, rb) {
        assert(now == merged(rep, ra, rb));
        assert forall|w: Seq<usize>| #[trigger] block_walk(now, adj, w) && w.len()
            >= 2 implies w[0] != w.last() by {
            if w[0] == w.last() {
                let m = w.len() - 1;
                if exists|a: int| 0 <= a < m && (#[trigger] w[a]) == ra {
                    let a = choose|a: int| 0 <= a < m && (#[trigger] w[a]) == ra;
                    let r = w + w.drop_first();
                    assert forall|i: int| 0 <= i < r.len() - 1 implies #[trigger] block_hop(
                        now,
                        adj,
                        r,
                        i,
                    ) by {
                        if i < m {
                            assert(block_hop(now, adj, w, i));
                        } else {
                            assert(block_hop(now, adj, w, i - m));
                        }
                    }
                    assert(r[a] == w[a]);
                    assert(r[a + m] == w[a]);
                    let b = next_at(r, a, a + m, ra);
                    lemma_ring_traps(rep, adj, anc, desc, ra, rb, r, a, b);
                } else {
                    assert forall|i: int| 0 <= i < w.len() - 1 implies #[trigger] block_hop(
                        rep,
                        adj,
                        w,
                        i,
                    ) by {
                        assert(block_hop(now, adj, w, i));
                        assert(w[i] != ra);
                        assert(w[i + 1] != ra) by {
                            if i + 1 == m {
                                assert(w[0] != ra);
                            }
                        }
                        lemma_step_before(rep, adj, ra, rb, w[i], w[i + 1]);
                    }
                    assert(block_walk(rep, adj, w));
                }
                assert(false);
            }
        }
    }
}

proof fn lemma_pass_ringless(
    rep: Seq<usize>,
    adj: Seq<Set<int>>,
    anc: Seq<Set<int>>,
    desc: Seq<Set<int>>,
    edges: Seq<(usize, usize)>,
)
    requires
        rep.len() == adj.len(),
        reps_ok(rep),
        forall|i: int| 0 <= i < edges.len() ==> (#[trigger] edges[i]).0 < rep.len() && edges[i].1 < rep.len(),
        tables_match(adj, anc, desc),
        ringless(rep, adj),
    ensures
        ringless(fuse_pass(rep, anc, desc, edges), adj),
    decreases edges.len(),
{
    if edges.len() > 0 {
        let rest = edges.drop_last();
        lemma_pass_ringless(rep, adj, anc, desc, rest);
        lemma_pass_roots(rep, anc, desc, rest);
        lemma_step_ringless(fuse_pass(rep, anc, desc, rest), adj, anc, desc, edges.last());
    }
}

/// Single nodes form no ring in a graph without cycles.
proof fn lemma_walk_reaches(rep: Seq<usize>, adj: Seq<Set<int>>, w: Seq<usize>, i: int)
    requires
        rep.len() == adj.len(),
        forall|x: int| 0 <= x < rep.len() ==> (#[trigger] rep[x]) == x,
        block_walk(rep, adj, w),
        0 < i < w.len(),
    ensures
        reaches(adj, w[0] as int, w[i] as int),
    decreases i,
{
    assert(block_hop(rep, adj, w, i - 1));
    let (u, v) = choose|u: int, v: int|
        0 <= u < rep.len() && 0 <= v < rep.len() && rep[u] == w[i - 1] && rep[v] == w[i]
            && #[trigger] adj[u].contains(v);
    lemma_reach_step(adj, u, v);
    assert(u == w[i - 1] && v == w[i]);
    if i > 1 {
        lemma_walk_reaches(rep, adj, w, i - 1);
        lemma_reach_join(adj, w[0] as int, u, v);
    }
}

proof fn lemma_passes_ringless(
    adj: Seq<Set<int>>,
    anc: Seq<Set<int>>,
    desc: Seq<Set<int>>,
    edges: Seq<(usize, usize)>,
    p: nat,
)
    requires
        adj.len() <= usize::MAX,
        acyclic(adj),
        forall|i: int| 0 <= i < edges.len() ==> (#[trigger] edges[i]).0 < adj.len() && edges[i].1 < adj.len(),
        tables_match(adj, anc, desc),
    ensures
        ringless(fuse_passes(adj.len(), anc, desc, edges, p), adj),
    decreases p,
{
    let rep = fuse_passes(adj.len(), anc, desc, edges, p);
    if p == 0 {
        assert forall|w: Seq<usize>| #[trigger] block_walk(rep, adj, w) && w.len()
            >= 2 implies w[0] != w.last() by {
            if w[0] == w.last() {
                lemma_walk_reaches(rep, adj, w, w.len() - 1);
                lemma_no_return(adj, w[0] as int);
            }
        }
    } else {
        lemma_passes_ringless(adj, anc, desc, edges, (p - 1) as nat);
        lemma_passes_reps(adj.len(), anc, desc, edges, (p - 1) as nat);
        lemma_pass_ringless(
            fuse_passes(adj.len(), anc, desc, edges, (p - 1) as nat),
            adj,
            anc,
            desc,
            edges,
        );
    }
}

/// Whether unsupported nodes are blocks of their own.
spec fn own_blocks(rep: Seq<usize>, supported: Seq<bool>) -> bool {
    forall|x: int|
        0 <= x < rep.len() ==> (if supported[x] {
            supported[rep[x] as int]
        } else {
            (#[trigger] rep[x]) == x
        })
}

proof fn lemma_pass_own(
    rep: Seq<usize>,
    anc: Seq<Set<int>>,
    desc: Seq<Set<int>>,
    edges: Seq<(usize, usize)>,
    supported: Seq<bool>,
)
    requires
        reps_ok(rep),
        own_blocks(rep, supported),
        forall|i: int|
            0 <= i < edges.len() ==> (#[trigger] edges[i]).0 < rep.len() && edges[i].1 < rep.len()
                && supported[edges[i].0 as int] && supported[edges[i].1 as int],
    ensures
        own_blocks(fuse_pass(rep, anc, desc, edges), supported),
    decreases edges.len(),
{
    if edges.len() > 0 {
        let rest = edges.drop_last();
        lemma_pass_own(rep, anc, desc, rest, supported);
        lemma_pass_roots(rep, anc, desc, rest);
        let mid = fuse_pass(rep, anc, desc, rest);
        let e = edges.last();
        assert(e == edges[edges.len() - 1]);
        let now = fuse_step(mid, anc, desc, e);
        assert forall|x: int| 0 <= x < now.len() implies (if supported[x] {
            supported[now[x] as int]
        } else {
            (#[trigger] now[x]) == x
        }) by {
            assert(if supported[x] {
                supported[mid[x] as int]
            } else {
                mid[x] == x
            });
            let a = e.0 as int;
            let b = e.1 as int;
            assert(supported[mid[a] as int] && supported[mid[b] as int]);
        }
    }
}

proof fn lemma_passes_own(
    n: nat,
    anc: Seq<Set<int>>,
    desc: Seq<Set<int>>,
    edges: Seq<(usize, usize)>,
    supported: Seq<bool>,
    p: nat,
)
    requires
        n <= usize::MAX,
        forall|i: int|
            0 <= i < edges.len() ==> (#[trigger] edges[i]).0 < n && edges[i].1 < n
                && supported[edges[i].0 as int] && supported[edges[i].1 as int],
    ensures
        own_blocks(fuse_passes(n, anc, desc, edges, p), supported),
    decreases p,
{
    if p > 0 {
        let q = (p - 1) as nat;
        lemma_passes_own(n, anc, desc, edges, supported, q);
        lemma_passes_reps(n, anc, desc, edges, q);
        lemma_pass_own(fuse_passes(n, anc, desc, edges, q), anc, desc, edges, supported);
    }
}

/// Whether `x` and `y` are one vertex once every group is contracted.
pub open spec fn together(groups: Seq<Seq<usize>>, x: usize, y: usize) -> bool {
    x == y || exists|g: int|
        0 <= g < groups.len() && (#[trigger] groups[g]).contains(x) && groups[g].contains(y)
}

/// Whether edge `i` of the ring leads from one vertex to another, at which the next begins.
pub open spec fn ring_edge(
    groups: Seq<Seq<usize>>,
    preds: Seq<Seq<usize>>,
    ring: Seq<(usize, usize)>,
    i: int,
) -> bool {
    let (v, u) = ring[i];
    &&& v < preds.len()
    &&& preds[v as int].contains(u)
    &&& !together(groups, v, u)
    &&& together(groups, u, ring[if i + 1 < ring.len() { i + 1 } else { 0 }].0)
}

/// Whether the edges of `ring`, each from a consumer to a producer, run round through two or
/// more vertices of the graph in which every group is contracted to one.
pub open spec fn is_ring(
    groups: Seq<Seq<usize>>,
    preds: Seq<Seq<usize>>,
    ring: Seq<(usize, usize)>,
) -> bool {
    &&& ring.len() > 0
    &&& forall|i: int| 0 <= i < ring.len() ==> #[trigger] ring_edge(groups, preds, ring, i)
}

proof fn lemma_together(
    groups: Seq<Seq<usize>>,
    rep: Seq<usize>,
    supported: Seq<bool>,
    x: usize,
    y: usize,
)
    requires
        reps_ok(rep),
        rep.len() <= usize::MAX,
        own_blocks(rep, supported),
        groups == groups_below(rep, supported, rep.len() as int),
        x < rep.len(),
        y < rep.len(),
    ensures
        together(groups, x, y) == (rep[x as int] == rep[y as int]),
{
    let n = rep.len() as int;
    lemma_groups(rep, supported, n);
    if x != y && together(groups, x, y) {
        let g = choose|g: int|
            0 <= g < groups.len() && (#[trigger] groups[g]).contains(x) && groups[g].contains(y);
        lemma_group(rep, supported, groups[g], groups[g].index_of(x));
        lemma_group(rep, supported, groups[g], groups[g].index_of(y));
    }
    if x != y && rep[x as int] == rep[y as int] {
        assert(supported[x as int] && supported[y as int]);
        let q = rep[x as int] as int;
        lemma_members(rep, supported, q, n);
        let m = members(rep, supported, q, n);
        assert(m.contains((x as int) as usize));
        assert(m.contains((y as int) as usize));
        let g = groups.index_of(m);
        assert(groups[g].contains(x) && groups[g].contains(y));
    }
}

/// The blocks behind the groups, with what leads to each node and what it leads to.
proof fn lemma_at_rest(groups: Seq<Seq<usize>>, preds: Seq<Seq<usize>>, supported: Seq<bool>) -> (r: (
    Seq<usize>,
    Seq<Set<int>>,
    Seq<Set<int>>,
))
    requires
        is_fusion(groups, preds, supported),
        loop_free(preds),
        preds.len() <= usize::MAX,
        acyclic(adjacency(preds)),
    ensures
        r.0.len() == preds.len(),
        reps_ok(r.0),
        own_blocks(r.0, supported),
        groups == groups_below(r.0, supported, preds.len() as int),
        ringless(r.0, adjacency(preds)),
        tables_match(adjacency(preds), r.1, r.2),
        fuse_pass(r.0, r.1, r.2, fusable_edges(preds, supported)) == r.0,
{
    let (rep, order, k, p) = choose|rep: Seq<usize>, order: Seq<usize>, k: int, p: nat|
        #[trigger] rests_at(rep, preds, supported, order, k, p) && groups == groups_below(
            rep,
            supported,
            rep.len() as int,
        );
    let adj = adjacency(preds);
    let anc = swept(order, adj);
    let desc = swept(order.reverse(), flipped(adj));
    let edges = fusable_edges(preds, supported);
    lemma_tables_match(preds, order, k);
    lemma_edges_bound(preds, supported);
    assert forall|i: int| 0 <= i < edges.len() implies (#[trigger] edges[i]).0 < preds.len()
        && edges[i].1 < preds.len() && supported[edges[i].0 as int]
        && supported[edges[i].1 as int] by {
        law_fusable_edges(preds, supported, i);
    }
    lemma_passes_reps(preds.len(), anc, desc, edges, p);
    lemma_passes_own(preds.len(), anc, desc, edges, supported, p);
    lemma_passes_ringless(adj, anc, desc, edges, p);
    (rep, anc, desc)
}

/// The quotient graph is acyclic: in a graph without cycles, with every group contracted to
/// one vertex and all other nodes left as they are, no producer-to-consumer edges run round
/// through two or more vertices.
pub proof fn law_quotient_acyclic(
    groups: Seq<Seq<usize>>,
    preds: Seq<Seq<usize>>,
    supported: Seq<bool>,
    ring: Seq<(usize, usize)>,
)
    requires
        is_fusion(groups, preds, supported),
        loop_free(preds),
        preds.len() <= usize::MAX,
        acyclic(adjacency(preds)),
    ensures
        !is_ring(groups, preds, ring),
{
    let (rep, anc, desc) = lemma_at_rest(groups, preds, supported);
    if is_ring(groups, preds, ring) {
        let adj = adjacency(preds);
        let m = ring.len() as int;
        let w = Seq::new((m + 1) as nat, |i: int| rep[ring[if i < m { i } else { 0 }].0 as int]);
        assert forall|i: int| 0 <= i < w.len() - 1 implies #[trigger] block_hop(
            rep,
            adj,
            w,
            i,
        ) by {
            assert(ring_edge(groups, preds, ring, i));
            let j = if i + 1 < m { i + 1 } else { 0 };
            assert(ring_edge(groups, preds, ring, j));
            let (v, u) = ring[i];
            let next = ring[j].0;
            assert(all_below(preds[v as int], preds.len() as int));
            let q = preds[v as int].index_of(u);
            assert(preds[v as int][q] == u);
            lemma_together(groups, rep, supported, v, u);
            lemma_together(groups, rep, supported, u, next);
            assert(adj[v as int].contains(u as int));
        }
        assert(block_walk(rep, adj, w));
        assert(w[0] == w.last());
    }
}

// --- groups are convex, and none can be larger ------------------------------------------

/// A path from node to node is a walk from block to block.
proof fn path_walk(preds: Seq<Seq<usize>>, rep: Seq<usize>, path: Seq<int>) -> (w: Seq<usize>)
    requires
        loop_free(preds),
        rep.len() == preds.len(),
        is_path(adjacency(preds), path),
    ensures
        0 <= path[0] < rep.len(),
        0 <= path.last() < rep.len(),
        w.len() >= 1,
        block_walk(rep, adjacency(preds), w),
        w[0] == rep[path[0]],
        w.last() == rep[path.last()],
    decreases path.len(),
{
    let adj = adjacency(preds);
    let m = path.len() - 2;
    let (x, y) = (path[m], path[m + 1]);
    assert(step_at(adj, path, 0));
    assert(step_at(adj, path, m));
    assert(all_below(preds[x], preds.len() as int));
    let q = preds[x].index_of(y as usize);
    assert(preds[x][q] == y);
    let w = if m == 0 {
        seq![rep[x]]
    } else {
        let rest = path.drop_last();
        assert forall|i: int| 0 <= i < rest.len() - 1 implies #[trigger] step_at(adj, rest, i) by {
            assert(step_at(adj, path, i));
        }
        path_walk(preds, rep, rest)
    };
    assert(w.last() == rep[x]);
    if rep[x] == rep[y] {
        w
    } else {
        let longer = w.push(rep[y]);
        assert(block_step(rep, adj, rep[x], rep[y]));
        assert forall|i: int| 0 <= i < longer.len() - 1 implies #[trigger] block_hop(
            rep,
            adj,
            longer,
            i,
        ) by {
            if i < w.len() - 1 {
                assert(block_hop(rep, adj, w, i));
            }
        }
        longer
    }
}

/// A walk from the block of `x` to the block of `y`, which `x` depends on.
proof fn reach_walk(preds: Seq<Seq<usize>>, rep: Seq<usize>, x: int, y: int) -> (w: Seq<usize>)
    requires
        loop_free(preds),
        rep.len() == preds.len(),
        reaches(adjacency(preds), x, y),
    ensures
        0 <= x < rep.len(),
        0 <= y < rep.len(),
        w.len() >= 1,
        block_walk(rep, adjacency(preds), w),
        w[0] == rep[x],
        w.last() == rep[y],
{
    let path = choose|p: Seq<int>|
        #[trigger] is_path(adjacency(preds), p) && p[0] == x && p.last() == y;
    path_walk(preds, rep, path)
}

proof fn join_walks(rep: Seq<usize>, adj: Seq<Set<int>>, a: Seq<usize>, b: Seq<usize>) -> (w: Seq<
    usize,
>)
    requires
        a.len() >= 1,
        b.len() >= 1,
        block_walk(rep, adj, a),
        block_walk(rep, adj, b),
        a.last() == b[0],
    ensures
        w.len() == a.len() + b.len() - 1,
        block_walk(rep, adj, w),
        w[0] == a[0],
        w.last() == b.last(),
{
    let w = a + b.drop_first();
    assert forall|i: int| 0 <= i < w.len() - 1 implies #[trigger] block_hop(rep, adj, w, i) by {
        if i < a.len() - 1 {
            assert(block_hop(rep, adj, a, i));
        } else {
            assert(block_hop(rep, adj, b, i - (a.len() - 1)));
        }
    }
    w
}

/// **Groups are convex**: no node outside a group lies on a path between two of its members.
pub proof fn law_groups_convex(
    groups: Seq<Seq<usize>>,
    preds: Seq<Seq<usize>>,
    supported: Seq<bool>,
    g: int,
    a: usize,
    x: usize,
    b: usize,
)
    requires
        is_fusion(groups, preds, supported),
        loop_free(preds),
        preds.len() <= usize::MAX,
        acyclic(adjacency(preds)),
        0 <= g < groups.len(),
        groups[g].contains(a),
        groups[g].contains(b),
        reaches(adjacency(preds), a as int, x as int),
        reaches(adjacency(preds), x as int, b as int),
    ensures
        groups[g].contains(x),
{
    let (rep, anc, desc) = lemma_at_rest(groups, preds, supported);
    let adj = adjacency(preds);
    let there = reach_walk(preds, rep, a as int, x as int);
    let back = reach_walk(preds, rep, x as int, b as int);
    let w = join_walks(rep, adj, there, back);
    lemma_together(groups, rep, supported, a, b);
    assert(together(groups, a, b));
    assert(w[0] == w.last());
    assert(w.len() < 2);
    assert(there[0] == there.last());
    lemma_whole_group(groups, rep, supported, g, a, x);
}

/// A group is all of its block.
proof fn lemma_whole_group(
    groups: Seq<Seq<usize>>,
    rep: Seq<usize>,
    supported: Seq<bool>,
    g: int,
    a: usize,
    x: usize,
)
    requires
        reps_ok(rep),
        rep.len() <= usize::MAX,
        own_blocks(rep, supported),
        groups == groups_below(rep, supported, rep.len() as int),
        0 <= g < groups.len(),
        groups[g].contains(a),
        x < rep.len(),
    ensures
        a < rep.len(),
        groups[g].contains(x) == (rep[x as int] == rep[a as int]),
{
    let n = rep.len() as int;
    lemma_groups(rep, supported, n);
    assert(group_ok(rep, supported, groups[g], n));
    let q = rep[groups[g][0] as int] as int;
    lemma_group(rep, supported, groups[g], groups[g].index_of(a));
    lemma_members(rep, supported, q, n);
    assert(groups[g].contains((x as int) as usize) == (supported[x as int] && rep[x as int] == q));
    if rep[x as int] == q && !supported[x as int] {
        assert(supported[rep[a as int] as int]);
        assert(rep[x as int] == x);
    }
}

/// A way upstream from the joined block is a walk among the blocks as they would be.
proof fn climb_walk(
    preds: Seq<Seq<usize>>,
    rep: Seq<usize>,
    anc: Seq<Set<int>>,
    desc: Seq<Set<int>>,
    ra: usize,
    rb: usize,
    way: Seq<usize>,
    i: int,
) -> (w: Seq<usize>)
    requires
        loop_free(preds),
        rep.len() == preds.len(),
        tables_match(adjacency(preds), anc, desc),
        climbs(rep, anc, ra, rb, way),
        0 <= i < way.len(),
    ensures
        w.len() >= 2,
        block_walk(merged(rep, ra, rb), adjacency(preds), w),
        w[0] == ra,
        w.last() == way[i],
    decreases i,
{
    let now = merged(rep, ra, rb);
    if i == 0 {
        let x = choose|x: int|
            0 <= x < rep.len() && rep[x] == way[0] && #[trigger] block_reaches(rep, anc, ra, rb, x);
        let m = choose|m: int|
            0 <= m < rep.len() && in_block(rep, ra, rb, m) && (#[trigger] anc[m]).contains(x);
        assert(reaches(adjacency(preds), m, x));
        assert(way[0] != ra && way[0] != rb);
        reach_walk(preds, now, m, x)
    } else {
        let rest = climb_walk(preds, rep, anc, desc, ra, rb, way, i - 1);
        assert(leads_on(rep, anc, way[i - 1], way[i]));
        let x = choose|x: int|
            0 <= x < rep.len() && rep[x] == way[i] && #[trigger] leads(
                rep,
                anc,
                way[i - 1] as int,
                x,
            );
        let m = choose|m: int|
            0 <= m < rep.len() && rep[m] == way[i - 1] as int && (#[trigger] anc[m]).contains(x);
        assert(reaches(adjacency(preds), m, x));
        assert(way[i] != ra && way[i] != rb);
        assert(way[i - 1] != ra && way[i - 1] != rb);
        let next = reach_walk(preds, now, m, x);
        join_walks(now, adjacency(preds), rest, next)
    }
}

/// What a join is refused for is a ring through the joined block.
proof fn trap_walk(
    preds: Seq<Seq<usize>>,
    rep: Seq<usize>,
    anc: Seq<Set<int>>,
    desc: Seq<Set<int>>,
    ra: usize,
    rb: usize,
) -> (w: Seq<usize>)
    requires
        loop_free(preds),
        rep.len() == preds.len(),
        tables_match(adjacency(preds), anc, desc),
        traps(rep, anc, desc, ra, rb),
    ensures
        w.len() >= 2,
        block_walk(merged(rep, ra, rb), adjacency(preds), w),
        w[0] == w.last(),
{
    let now = merged(rep, ra, rb);
    let way = choose|w: Seq<usize>|
        #[trigger] climbs(rep, anc, ra, rb, w) && enters(rep, desc, ra, rb, w.last());
    let up = climb_walk(preds, rep, anc, desc, ra, rb, way, way.len() - 1);
    let x = choose|x: int|
        0 <= x < rep.len() && rep[x] == way.last() && #[trigger] block_reaches(
            rep,
            desc,
            ra,
            rb,
            x,
        );
    let m = choose|m: int|
        0 <= m < rep.len() && in_block(rep, ra, rb, m) && (#[trigger] desc[m]).contains(x);
    assert(reaches(adjacency(preds), x, m));
    assert(way[way.len() - 1] != ra && way[way.len() - 1] != rb);
    let back = reach_walk(preds, now, x, m);
    join_walks(now, adjacency(preds), up, back)
}

/// The edge behind a hop from one block to the next.
spec fn hop_edge(rep: Seq<usize>, adj: Seq<Set<int>>, c: usize, d: usize) -> (int, int) {
    choose|e: (int, int)|
        0 <= e.0 < rep.len() && 0 <= e.1 < rep.len() && rep[e.0] == c && rep[e.1] == d
            && #[trigger] adj[e.0].contains(e.1)
}

/// **Groups are maximal**: contracting the groups at the two ends of an edge to one vertex as
/// well would close a ring.
pub proof fn law_groups_maximal(
    groups: Seq<Seq<usize>>,
    preds: Seq<Seq<usize>>,
    supported: Seq<bool>,
    g: int,
    h: int,
    u: usize,
    v: usize,
)
    requires
        is_fusion(groups, preds, supported),
        loop_free(preds),
        preds.len() <= usize::MAX,
        acyclic(adjacency(preds)),
        0 <= g < groups.len(),
        0 <= h < groups.len(),
        g != h,
        groups[g].contains(u),
        groups[h].contains(v),
        preds[v as int].contains(u),
    ensures
        exists|ring: Seq<(usize, usize)>|
            #[trigger] is_ring(groups.push(groups[g] + groups[h]), preds, ring),
{
    let (rep, anc, desc) = lemma_at_rest(groups, preds, supported);
    let adj = adjacency(preds);
    let edges = fusable_edges(preds, supported);
    law_groups_partition(groups, preds, supported);
    let i = groups[g].index_of(u);
    let j = groups[h].index_of(v);
    assert(groups[g][i] == u && groups[h][j] == v);
    lemma_edges_bound(preds, supported);
    law_edges_fusable(preds, supported, u, v);
    lemma_refused(rep, anc, desc, edges, edges.index_of((u, v)));
    let ra = rep[u as int];
    let rb = rep[v as int];
    lemma_whole_group(groups, rep, supported, g, u, v);
    assert(ra != rb) by {
        if groups[g].contains(v) {
            assert(g == h);
        }
    }
    let now = merged(rep, ra, rb);
    let w = trap_walk(preds, rep, anc, desc, ra, rb);
    let joined = groups.push(groups[g] + groups[h]);
    let m = w.len() - 1;
    let ring = Seq::new(
        m as nat,
        |i: int|
            {
                let e = hop_edge(now, adj, w[i], w[i + 1]);
                (e.0 as usize, e.1 as usize)
            },
    );
    assert forall|i: int| 0 <= i < m implies {
        let e = #[trigger] ring[i];
        e.0 < now.len() && e.1 < now.len() && now[e.0 as int] == w[i] && now[e.1 as int] == w[i + 1]
            && w[i] != w[i + 1] && preds[e.0 as int].contains(e.1)
    } by {
        assert(block_hop(now, adj, w, i));
        let (x, y) = choose|x: int, y: int|
            0 <= x < now.len() && 0 <= y < now.len() && now[x] == w[i] && now[y] == w[i + 1]
                && #[trigger] adj[x].contains(y);
        let e = (x, y);
        assert(adj[e.0].contains(e.1));
        let f = hop_edge(now, adj, w[i], w[i + 1]);
        assert(adj[f.0].contains(f.1));
    }
    assert forall|i: int| 0 <= i < ring.len() implies #[trigger] ring_edge(joined, preds, ring, i) by {
        let k = if i + 1 < m { i + 1 } else { 0 };
        let (a, b) = ring[i];
        let (c, d) = ring[k];
        lemma_joined_together(groups, rep, supported, g, h, u, v, a, b);
        lemma_joined_together(groups, rep, supported, g, h, u, v, b, c);
    }
    assert(is_ring(joined, preds, ring));
}

proof fn lemma_joined_together(
    groups: Seq<Seq<usize>>,
    rep: Seq<usize>,
    supported: Seq<bool>,
    g: int,
    h: int,
    u: usize,
    v: usize,
    x: usize,
    y: usize,
)
    requires
        reps_ok(rep),
        rep.len() <= usize::MAX,
        own_blocks(rep, supported),
        groups == groups_below(rep, supported, rep.len() as int),
        0 <= g < groups.len(),
        0 <= h < groups.len(),
        groups[g].contains(u),
        groups[h].contains(v),
        u < rep.len(),
        v < rep.len(),
        x < rep.len(),
        y < rep.len(),
    ensures
        together(groups.push(groups[g] + groups[h]), x, y) == ({
            let now = merged(rep, rep[u as int], rep[v as int]);
            now[x as int] == now[y as int]
        }),
{
    let both = groups[g] + groups[h];
    let joined = groups.push(both);
    let n = groups.len() as int;
    lemma_together(groups, rep, supported, x, y);
    lemma_whole_group(groups, rep, supported, g, u, x);
    lemma_whole_group(groups, rep, supported, g, u, y);
    lemma_whole_group(groups, rep, supported, h, v, x);
    lemma_whole_group(groups, rep, supported, h, v, y);
    lemma_either(groups[g], groups[h], x);
    lemma_either(groups[g], groups[h], y);
    assert(joined[n] == both);
    if together(groups, x, y) && x != y {
        let k = choose|k: int|
            0 <= k < groups.len() && (#[trigger] groups[k]).contains(x) && groups[k].contains(y);
        assert(joined[k].contains(x) && joined[k].contains(y));
    }
    if together(joined, x, y) && x != y {
        let k = choose|k: int|
            0 <= k < joined.len() && (#[trigger] joined[k]).contains(x) && joined[k].contains(y);
        if k < n {
            assert(groups[k].contains(x) && groups[k].contains(y));
        }
    }
    if both.contains(x) && both.contains(y) {
        assert(joined[n].contains(x) && joined[n].contains(y));
    }
}

proof fn lemma_either(a: Seq<usize>, b: Seq<usize>, x: usize)
    ensures
        (a + b).contains(x) == (a.contains(x) || b.contains(x)),
{
    if a.contains(x) {
        assert((a + b)[a.index_of(x)] == x);
    }
    if b.contains(x) {
        assert((a + b)[a.len() + b.index_of(x)] == x);
    }
}

} // verus!
