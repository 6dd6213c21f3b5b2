//! Partition of the supported nodes of a graph into blocks that can run as one.
//!
//! Blocks grow greedily along the edges between supported nodes. Contracting every block to
//! one vertex must leave a graph without cycles, so two blocks join unless a path would lead
//! from the result out through other blocks, or unsupported nodes, and back into it. In
//! particular no node outside a block lies on a path between two of its members. One pass over
//! the edges follows another until nothing changes.

use crate::bits::{bit, empty_bits, or_into, set_bit, set_bits_outside, set_of, union_bits, words, Bits};
use crate::names::NameMap;
use crate::text::{name_lists, texts};
use crate::union_find::{merged, reps_ok, Uf};
use vstd::prelude::*;

verus! {

// --- edges of the graph -----------------------------------------------------------------

/// The last node that has `name` among its outputs. The empty name has no producer.
pub open spec fn producer_of(outs: Seq<Seq<Seq<char>>>, name: Seq<char>) -> Option<usize>
    decreases outs.len(),
{
    if name.len() == 0 || outs.len() == 0 {
        None
    } else if outs.last().contains(name) {
        Some((outs.len() - 1) as usize)
    } else {
        producer_of(outs.drop_last(), name)
    }
}

/// The producers of the names in `ins`, in their order; names without one are left out.
pub open spec fn producers_of(outs: Seq<Seq<Seq<char>>>, ins: Seq<Seq<char>>) -> Seq<usize>
    decreases ins.len(),
{
    if ins.len() == 0 {
        Seq::empty()
    } else {
        let rest = producers_of(outs, ins.drop_last());
        match producer_of(outs, ins.last()) {
            Some(u) => rest.push(u),
            None => rest,
        }
    }
}

/// For each node, the nodes that produce its inputs.
pub open spec fn predecessors_of(
    ins: Seq<Seq<Seq<char>>>,
    outs: Seq<Seq<Seq<char>>>,
) -> Seq<Seq<usize>> {
    Seq::new(ins.len(), |v: int| producers_of(outs, ins[v]))
}

/// The edges into `v` from `preds`, in order, where both ends are supported.
pub open spec fn edges_into(preds: Seq<usize>, v: usize, supported: Seq<bool>) -> Seq<(usize, usize)>
    decreases preds.len(),
{
    if preds.len() == 0 {
        Seq::empty()
    } else {
        let rest = edges_into(preds.drop_last(), v, supported);
        if supported[preds.last() as int] && supported[v as int] {
            rest.push((preds.last(), v))
        } else {
            rest
        }
    }
}

/// The edges between supported nodes, by consumer and then by input.
pub open spec fn fusable_edges(preds: Seq<Seq<usize>>, supported: Seq<bool>) -> Seq<(usize, usize)>
    decreases preds.len(),
{
    if preds.len() == 0 {
        Seq::empty()
    } else {
        fusable_edges(preds.drop_last(), supported) + edges_into(
            preds.last(),
            (preds.len() - 1) as usize,
            supported,
        )
    }
}

/// Each list as a set of indices.
pub open spec fn adjacency(lists: Seq<Seq<usize>>) -> Seq<Set<int>> {
    Seq::new(
        lists.len(),
        |v: int| Set::new(|u: int| 0 <= u <= usize::MAX && lists[v].contains(u as usize)),
    )
}

/// The adjacency with every edge turned round.
pub open spec fn flipped(adj: Seq<Set<int>>) -> Seq<Set<int>> {
    Seq::new(adj.len(), |u: int| Set::new(|v: int| 0 <= v < adj.len() && adj[v].contains(u)))
}

// --- topological order ------------------------------------------------------------------

/// Whether every node that `order[i]` depends on stands before place `i`.
pub open spec fn settled(order: Seq<usize>, adj: Seq<Set<int>>, i: int) -> bool {
    forall|u: int|
        #[trigger] adj[order[i] as int].contains(u) ==> exists|j: int|
            0 <= j < i && (#[trigger] order[j]) == u
}

/// Whether `order[i]` depends on a node that is not among the first `k`.
pub open spec fn stuck(order: Seq<usize>, adj: Seq<Set<int>>, k: int, i: int) -> bool {
    exists|u: int|
        #[trigger] adj[order[i] as int].contains(u) && forall|j: int|
            0 <= j < k ==> (#[trigger] order[j]) != u
}

/// Whether `order` lists each node once: first those that a topological sort reaches, each
/// after all it depends on, then by index those caught in or behind a cycle.
pub open spec fn is_order(order: Seq<usize>, adj: Seq<Set<int>>, k: int) -> bool {
    &&& order.len() == adj.len()
    &&& order.no_duplicates()
    &&& forall|i: int| 0 <= i < order.len() ==> (#[trigger] order[i]) < adj.len()
    &&& 0 <= k <= order.len()
    &&& forall|i: int| 0 <= i < k ==> #[trigger] settled(order, adj, i)
    &&& forall|i: int| k <= i < order.len() ==> #[trigger] stuck(order, adj, k, i)
    &&& forall|i: int, j: int| k <= i < j < order.len() ==> order[i] < order[j]
}

// --- what each node reaches -------------------------------------------------------------

/// What `v` gains from its neighbours: they and all they have gathered so far.
pub open spec fn absorbed(p: Seq<Set<int>>, adj: Seq<Set<int>>, v: int) -> Set<int> {
    Set::new(
        |x: int|
            p[v].contains(x) || exists|u: int|
                #[trigger] adj[v].contains(u) && (x == u || p[u].contains(x)),
    )
}

/// What each node has gathered after a sweep over `order`.
pub open spec fn swept(order: Seq<usize>, adj: Seq<Set<int>>) -> Seq<Set<int>>
    decreases order.len(),
{
    if order.len() == 0 {
        Seq::new(adj.len(), |i: int| Set::empty())
    } else {
        let p = swept(order.drop_last(), adj);
        let v = order.last() as int;
        p.update(v, absorbed(p, adj, v))
    }
}

// --- greedy fusion ----------------------------------------------------------------------

/// Whether `x` lies in the block that joining the blocks `ra` and `rb` would give.
pub open spec fn in_block(rep: Seq<usize>, ra: usize, rb: usize, x: int) -> bool {
    rep[x] == ra || rep[x] == rb
}

/// Whether `rel` leads from some member of the joined block to `x`.
pub open spec fn block_reaches(
    rep: Seq<usize>,
    rel: Seq<Set<int>>,
    ra: usize,
    rb: usize,
    x: int,
) -> bool {
    exists|m: int|
        0 <= m < rep.len() && in_block(rep, ra, rb, m) && (#[trigger] rel[m]).contains(x)
}

/// Whether `rel` leads from a member of the block `r` to `x`.
pub open spec fn leads(rep: Seq<usize>, rel: Seq<Set<int>>, r: int, x: int) -> bool {
    exists|m: int| 0 <= m < rep.len() && rep[m] == r && (#[trigger] rel[m]).contains(x)
}

/// Whether `rel` leads from a member of block `c` to a member of block `d`.
pub open spec fn leads_on(rep: Seq<usize>, rel: Seq<Set<int>>, c: usize, d: usize) -> bool {
    exists|x: int| 0 <= x < rep.len() && rep[x] == d && #[trigger] leads(rep, rel, c as int, x)
}

/// Whether `rel` leads from a member of the joined block to a member of block `d`.
pub open spec fn enters(
    rep: Seq<usize>,
    rel: Seq<Set<int>>,
    ra: usize,
    rb: usize,
    d: usize,
) -> bool {
    exists|x: int|
        0 <= x < rep.len() && rep[x] == d && #[trigger] block_reaches(rep, rel, ra, rb, x)
}

/// Whether `w` leads upstream from the joined block, from one other block to the next.
pub open spec fn climbs(
    rep: Seq<usize>,
    anc: Seq<Set<int>>,
    ra: usize,
    rb: usize,
    w: Seq<usize>,
) -> bool {
    &&& w.len() > 0
    &&& enters(rep, anc, ra, rb, w[0])
    &&& forall|i: int| 0 <= i < w.len() ==> (#[trigger] w[i]) != ra && w[i] != rb
    &&& forall|i: int| 0 < i < w.len() ==> leads_on(rep, anc, w[i - 1], #[trigger] w[i])
}

/// Whether joining `ra` and `rb` would close a ring: a way upstream from the result, through
/// other blocks only, ends at a block that lies downstream of it.
pub open spec fn traps(
    rep: Seq<usize>,
    anc: Seq<Set<int>>,
    desc: Seq<Set<int>>,
    ra: usize,
    rb: usize,
) -> bool {
    exists|w: Seq<usize>|
        #[trigger] climbs(rep, anc, ra, rb, w) && enters(rep, desc, ra, rb, w.last())
}

/// The blocks after the edge `e` was considered.
pub open spec fn fuse_step(
    rep: Seq<usize>,
    anc: Seq<Set<int>>,
    desc: Seq<Set<int>>,
    e: (usize, usize),
) -> Seq<usize> {
    let ra = rep[e.0 as int];
    let rb = rep[e.1 as int];
    if ra == rb || traps(rep, anc, desc, ra, rb) {
        rep
    } else {
        merged(rep, ra, rb)
    }
}

/// The blocks after each of `edges` was considered once, in order.
pub open spec fn fuse_pass(
    rep: Seq<usize>,
    anc: Seq<Set<int>>,
    desc: Seq<Set<int>>,
    edges: Seq<(usize, usize)>,
) -> Seq<usize>
    decreases edges.len(),
{
    if edges.len() == 0 {
        rep
    } else {
        fuse_step(fuse_pass(rep, anc, desc, edges.drop_last()), anc, desc, edges.last())
    }
}

/// The blocks after `k` passes over `edges`, starting from single nodes.
pub open spec fn fuse_passes(
    n: nat,
    anc: Seq<Set<int>>,
    desc: Seq<Set<int>>,
    edges: Seq<(usize, usize)>,
    k: nat,
) -> Seq<usize>
    decreases k,
{
    if k == 0 {
        Seq::new(n, |x: int| x as usize)
    } else {
        fuse_pass(fuse_passes(n, anc, desc, edges, (k - 1) as nat), anc, desc, edges)
    }
}

/// The supported nodes below `k` whose block is `r`, ascending.
pub open spec fn members(rep: Seq<usize>, supported: Seq<bool>, r: int, k: int) -> Seq<usize>
    decreases k,
{
    if k <= 0 {
        Seq::empty()
    } else {
        let rest = members(rep, supported, r, k - 1);
        if supported[k - 1] && rep[k - 1] == r {
            rest.push((k - 1) as usize)
        } else {
            rest
        }
    }
}

/// The blocks of supported nodes whose representative is below `r`, by representative.
pub open spec fn groups_below(rep: Seq<usize>, supported: Seq<bool>, r: int) -> Seq<Seq<usize>>
    decreases r,
{
    if r <= 0 {
        Seq::empty()
    } else {
        let rest = groups_below(rep, supported, r - 1);
        let group = members(rep, supported, r - 1, rep.len() as int);
        if group.len() > 0 {
            rest.push(group)
        } else {
            rest
        }
    }
}

/// Whether `rep` is where the passes come to rest after the `p`-th, given `order`.
pub open spec fn rests_at(
    rep: Seq<usize>,
    preds: Seq<Seq<usize>>,
    supported: Seq<bool>,
    order: Seq<usize>,
    settled_nodes: int,
    p: nat,
) -> bool {
    let adj = adjacency(preds);
    let anc = swept(order, adj);
    let desc = swept(order.reverse(), flipped(adj));
    let edges = fusable_edges(preds, supported);
    &&& is_order(order, adj, settled_nodes)
    &&& rep == fuse_passes(preds.len(), anc, desc, edges, p)
    &&& fuse_pass(rep, anc, desc, edges) == rep
}

/// Whether `groups` are the blocks at which the greedy fusion comes to rest.
pub open spec fn is_fusion(
    groups: Seq<Seq<usize>>,
    preds: Seq<Seq<usize>>,
    supported: Seq<bool>,
) -> bool {
    exists|rep: Seq<usize>, order: Seq<usize>, k: int, p: nat|
        #[trigger] rests_at(rep, preds, supported, order, k, p) && groups == groups_below(
            rep,
            supported,
            rep.len() as int,
        )
}

// --- building the edges -----------------------------------------------------------------

/// What the table holds under `name`.
pub open spec fn lookup(m: Map<Seq<char>, usize>, name: Seq<char>) -> Option<usize> {
    if m.contains_key(name) {
        Some(m[name])
    } else {
        None
    }
}

pub proof fn lemma_producer_bound(outs: Seq<Seq<Seq<char>>>, name: Seq<char>)
    requires
        outs.len() <= usize::MAX,
    ensures
        producer_of(outs, name) matches Some(u) ==> u < outs.len() && outs[u as int].contains(name),
    decreases outs.len(),
{
    if name.len() > 0 && outs.len() > 0 && !outs.last().contains(name) {
        lemma_producer_bound(outs.drop_last(), name);
    }
}

/// For each value name, the node that produces it.
fn producers(node_outputs: &[Vec<String>]) -> (r: NameMap<usize>)
    requires
        node_outputs@.len() <= usize::MAX,
    ensures
        r.wf(),
        forall|name: Seq<char>|
            #[trigger] lookup(r.map(), name) == producer_of(name_lists(node_outputs@), name),
{
    let ghost outs = name_lists(node_outputs@);
    let mut r: NameMap<usize> = NameMap::new();
    let n: usize = node_outputs.len();
    let mut i: usize = 0;
    while i < n
        invariant
            n == node_outputs@.len(),
            i <= n,
            outs == name_lists(node_outputs@),
            r.wf(),
            forall|name: Seq<char>|
                #[trigger] lookup(r.map(), name) == producer_of(outs.take(i as int), name),
        decreases n - i,
    {
        let m: usize = node_outputs[i].len();
        let ghost names = outs[i as int];
        assert(names == texts(node_outputs@[i as int]@));
        let mut j: usize = 0;
        proof {
            assert(outs.take(i + 1).drop_last() =~= outs.take(i as int));
            assert(names.take(0) =~= Seq::empty());
        }
        while j < m
            invariant
                n == node_outputs@.len(),
                i < n,
                outs == name_lists(node_outputs@),
                names == outs[i as int],
                m == node_outputs@[i as int]@.len(),
                m == names.len(),
                j <= m,
                r.wf(),
                forall|name: Seq<char>|
                    #[trigger] lookup(r.map(), name) == if name.len() > 0 && names.take(
                        j as int,
                    ).contains(name) {
                        Some(i)
                    } else {
                        producer_of(outs.take(i as int), name)
                    },
            decreases m - j,
        {
            let ghost was = r.map();
            let o: &String = &node_outputs[i][j];
            assert(o@ == names[j as int]);
            assert(names.take(j + 1) =~= names.take(j as int).push(names[j as int]));
            if !o.as_str().is_empty() {
                r.insert(o.clone(), i);
            }
            assert forall|name: Seq<char>|
                #[trigger] lookup(r.map(), name) == if name.len() > 0 && names.take(
                    j + 1,
                ).contains(name) {
                    Some(i)
                } else {
                    producer_of(outs.take(i as int), name)
                } by {
                assert(lookup(was, name) == lookup(was, name));
                lemma_contains_push(names.take(j as int), names[j as int], name);
            }
            j += 1;
        }
        assert(names.take(m as int) =~= names);
        assert(outs.take(i + 1).last() == names);
        i += 1;
    }
    assert(outs.take(n as int) =~= outs);
    r
}

proof fn lemma_contains_push<A>(s: Seq<A>, a: A, x: A)
    ensures
        s.push(a).contains(x) == (s.contains(x) || x == a),
{
    if s.contains(x) {
        let i = s.index_of(x);
        assert(s.push(a)[i] == x);
    }
    if x == a {
        assert(s.push(a)[s.len() as int] == x);
    }
    if s.push(a).contains(x) && x != a {
        let i = s.push(a).index_of(x);
        assert(s[i] == x);
    }
}

/// The lists of indices held in `v`.
pub open spec fn lists(v: Seq<Vec<usize>>) -> Seq<Seq<usize>> {
    v.map_values(|l: Vec<usize>| l@)
}

proof fn lemma_producers_bound(outs: Seq<Seq<Seq<char>>>, ins: Seq<Seq<char>>, i: int)
    requires
        outs.len() <= usize::MAX,
        0 <= i < producers_of(outs, ins).len(),
    ensures
        producers_of(outs, ins)[i] < outs.len(),
    decreases ins.len(),
{
    if ins.len() > 0 {
        lemma_producer_bound(outs, ins.last());
        if i < producers_of(outs, ins.drop_last()).len() {
            lemma_producers_bound(outs, ins.drop_last(), i);
        }
    }
}

/// For each node, the nodes that produce its inputs.
fn predecessors(node_inputs: &[Vec<String>], producer: &NameMap<usize>, Ghost(outs): Ghost<
    Seq<Seq<Seq<char>>>,
>) -> (r: Vec<Vec<usize>>)
    requires
        forall|name: Seq<char>|
            #[trigger] lookup(producer.map(), name) == producer_of(outs, name),
    ensures
        lists(r@) == predecessors_of(name_lists(node_inputs@), outs),
{
    let ghost ins = name_lists(node_inputs@);
    let mut r: Vec<Vec<usize>> = Vec::new();
    let n: usize = node_inputs.len();
    let mut v: usize = 0;
    while v < n
        invariant
            n == node_inputs@.len(),
            v <= n,
            ins == name_lists(node_inputs@),
            r@.len() == v,
            forall|name: Seq<char>|
                #[trigger] lookup(producer.map(), name) == producer_of(outs, name),
            forall|q: int| 0 <= q < v ==> (#[trigger] r@[q])@ == producers_of(outs, ins[q]),
        decreases n - v,
    {
        let m: usize = node_inputs[v].len();
        let ghost names = ins[v as int];
        let mut p: Vec<usize> = Vec::new();
        let mut j: usize = 0;
        assert(names.take(0) =~= Seq::empty());
        while j < m
            invariant
                n == node_inputs@.len(),
                v < n,
                ins == name_lists(node_inputs@),
                names == ins[v as int],
                m == node_inputs@[v as int]@.len(),
                m == names.len(),
                j <= m,
                forall|name: Seq<char>|
                    #[trigger] lookup(producer.map(), name) == producer_of(outs, name),
                p@ == producers_of(outs, names.take(j as int)),
            decreases m - j,
        {
            let name: &String = &node_inputs[v][j];
            assert(name@ == names[j as int]);
            assert(names.take(j + 1).drop_last() =~= names.take(j as int));
            assert(lookup(producer.map(), name@) == producer_of(outs, name@));
            match producer.get(name.as_str()) {
                Some(u) => {
                    p.push(*u);
                },
                None => {},
            }
            j += 1;
        }
        assert(names.take(m as int) =~= names);
        r.push(p);
        v += 1;
    }
    assert(lists(r@) =~= predecessors_of(ins, outs));
    r
}

/// Whether every index in `l` is below `n`.
pub open spec fn all_below(l: Seq<usize>, n: int) -> bool {
    forall|i: int| 0 <= i < l.len() ==> (#[trigger] l[i]) < n
}

/// Whether no node depends on itself.
pub open spec fn no_self_edge(preds: Seq<Seq<usize>>) -> bool {
    forall|v: int| 0 <= v < preds.len() ==> !(#[trigger] preds[v]).contains(v as usize)
}

/// Whether the graph has a node for each list and no node depends on itself.
pub open spec fn loop_free(preds: Seq<Seq<usize>>) -> bool {
    &&& forall|v: int| 0 <= v < preds.len() ==> all_below(#[trigger] preds[v], preds.len() as int)
    &&& no_self_edge(preds)
}

/// The producers of a node's inputs are nodes of the graph.
pub proof fn lemma_loop_free(ins: Seq<Seq<Seq<char>>>, outs: Seq<Seq<Seq<char>>>)
    requires
        ins.len() == outs.len(),
        outs.len() <= usize::MAX,
        no_self_edge(predecessors_of(ins, outs)),
    ensures
        loop_free(predecessors_of(ins, outs)),
{
    let preds = predecessors_of(ins, outs);
    assert forall|v: int| 0 <= v < preds.len() implies all_below(
        #[trigger] preds[v],
        preds.len() as int,
    ) by {
        assert forall|i: int| 0 <= i < preds[v].len() implies (#[trigger] preds[v][i])
            < preds.len() by {
            lemma_producers_bound(outs, ins[v], i);
        }
    }
}

/// For each node, the nodes that consume what it produces.
fn successors(preds: &Vec<Vec<usize>>) -> (r: Vec<Vec<usize>>)
    requires
        loop_free(lists(preds@)),
    ensures
        loop_free(lists(r@)),
        r@.len() == preds@.len(),
        adjacency(lists(r@)) == flipped(adjacency(lists(preds@))),
{
    let n: usize = preds.len();
    let ghost ps = lists(preds@);
    let mut r: Vec<Vec<usize>> = empty_lists(n);
    let mut v: usize = 0;
    while v < n
        invariant
            n == preds@.len(),
            v <= n,
            ps == lists(preds@),
            loop_free(ps),
            r@.len() == n,
            forall|u: int, x: int|
                0 <= u < n && 0 <= x <= usize::MAX ==> (#[trigger] r@[u]@.contains(x as usize) <==> x
                    < v && ps[x].contains(u as usize)),
        decreases n - v,
    {
        let m: usize = preds[v].len();
        let mut j: usize = 0;
        while j < m
            invariant
                n == preds@.len(),
                v < n,
                ps == lists(preds@),
                loop_free(ps),
                m == preds@[v as int]@.len(),
                j <= m,
                r@.len() == n,
                forall|u: int, x: int|
                    0 <= u < n && 0 <= x <= usize::MAX ==> (#[trigger] r@[u]@.contains(x as usize)
                        <==> (x < v && ps[x].contains(u as usize)) || (x == v && ps[v as int].take(
                        j as int,
                    ).contains(u as usize))),
            decreases m - j,
        {
            let u: usize = preds[v][j];
            assert(all_below(ps[v as int], n as int));
            assert(u == ps[v as int][j as int]);
            let ghost was = r@;
            r[u].push(v);
            proof {
                assert(ps[v as int].take(j + 1) =~= ps[v as int].take(j as int).push(u));
                assert forall|y: int, x: int| 0 <= y < n && 0 <= x <= usize::MAX implies (
                #[trigger] r@[y]@.contains(x as usize) <==> (x < v && ps[x].contains(y as usize))
                    || (x == v && ps[v as int].take(j + 1).contains(y as usize))) by {
                    lemma_contains_push(ps[v as int].take(j as int), u, y as usize);
                    assert(was[y]@.contains(x as usize) <==> (x < v && ps[x].contains(y as usize))
                        || (x == v && ps[v as int].take(j as int).contains(y as usize)));
                    if y == u {
                        lemma_contains_push(was[y]@, v, x as usize);
                    }
                }
            }
            j += 1;
        }
        assert(ps[v as int].take(m as int) =~= ps[v as int]);
        v += 1;
    }
    proof {
        let rs = lists(r@);
        assert forall|u: int| 0 <= u < rs.len() implies all_below(#[trigger] rs[u], n as int) by {
            assert forall|i: int| 0 <= i < rs[u].len() implies (#[trigger] rs[u][i]) < n by {
                let x = rs[u][i] as int;
                assert(r@[u]@[i] == x as usize);
                assert(r@[u]@.contains(x as usize));
            }
        }
        assert forall|u: int| 0 <= u < rs.len() implies !(#[trigger] rs[u]).contains(u as usize) by {
            assert(r@[u]@.contains(u as usize) == rs[u].contains(u as usize));
            assert(!ps[u].contains(u as usize));
        }
        let a = adjacency(rs);
        let b = flipped(adjacency(ps));
        assert forall|u: int| 0 <= u < n implies #[trigger] a[u] == b[u] by {
            assert forall|x: int| #[trigger] a[u].contains(x) == b[u].contains(x) by {
                if 0 <= x <= usize::MAX {
                    assert(r@[u]@.contains(x as usize) == rs[u].contains(x as usize));
                }
            }
            assert(a[u] =~= b[u]);
        }
        assert(a =~= b);
    }
    r
}

/// `n` empty lists.
fn empty_lists(n: usize) -> (r: Vec<Vec<usize>>)
    ensures
        r@.len() == n,
        forall|i: int| 0 <= i < n ==> (#[trigger] r@[i])@ == Seq::<usize>::empty(),
{
    let mut r: Vec<Vec<usize>> = Vec::new();
    let mut i: usize = 0;
    while i < n
        invariant
            i <= n,
            r@.len() == i,
            forall|k: int| 0 <= k < i ==> (#[trigger] r@[k])@ == Seq::<usize>::empty(),
        decreases n - i,
    {
        r.push(Vec::new());
        i += 1;
    }
    r
}

/// The edges along which blocks may grow.
fn edges_of(preds: &Vec<Vec<usize>>, supported: &[bool]) -> (r: Vec<(usize, usize)>)
    requires
        loop_free(lists(preds@)),
        supported@.len() == preds@.len(),
    ensures
        r@ == fusable_edges(lists(preds@), supported@),
        forall|i: int|
            0 <= i < r@.len() ==> (#[trigger] r@[i]).0 < preds@.len() && r@[i].1 < preds@.len()
                && supported@[r@[i].0 as int] && supported@[r@[i].1 as int],
{
    let n: usize = preds.len();
    let ghost ps = lists(preds@);
    let mut r: Vec<(usize, usize)> = Vec::new();
    let mut v: usize = 0;
    assert(ps.take(0) =~= Seq::empty());
    while v < n
        invariant
            n == preds@.len(),
            n == supported@.len(),
            v <= n,
            ps == lists(preds@),
            loop_free(ps),
            r@ == fusable_edges(ps.take(v as int), supported@),
            forall|i: int|
                0 <= i < r@.len() ==> (#[trigger] r@[i]).0 < n && r@[i].1 < n
                    && supported@[r@[i].0 as int] && supported@[r@[i].1 as int],
        decreases n - v,
    {
        let m: usize = preds[v].len();
        let ghost start = r@;
        let mut j: usize = 0;
        assert(ps[v as int].take(0) =~= Seq::empty());
        assert(start + Seq::<(usize, usize)>::empty() =~= start);
        while j < m
            invariant
                n == preds@.len(),
                n == supported@.len(),
                v < n,
                ps == lists(preds@),
                loop_free(ps),
                m == preds@[v as int]@.len(),
                j <= m,
                r@ == start + edges_into(ps[v as int].take(j as int), v, supported@),
                forall|i: int|
                    0 <= i < r@.len() ==> (#[trigger] r@[i]).0 < n && r@[i].1 < n
                        && supported@[r@[i].0 as int] && supported@[r@[i].1 as int],
            decreases m - j,
        {
            let u: usize = preds[v][j];
            assert(all_below(ps[v as int], n as int));
            assert(u == ps[v as int][j as int]);
            assert(ps[v as int].take(j + 1).drop_last() =~= ps[v as int].take(j as int));
            let ghost into = edges_into(ps[v as int].take(j as int), v, supported@);
            if supported[u] && supported[v] {
                r.push((u, v));
                assert((start + into).push((u, v)) =~= start + into.push((u, v)));
            }
            j += 1;
        }
        assert(ps[v as int].take(m as int) =~= ps[v as int]);
        assert(ps.take(v + 1).drop_last() =~= ps.take(v as int));
        v += 1;
    }
    assert(ps.take(n as int) =~= ps);
    r
}

// --- topological order ------------------------------------------------------------------

/// Whether every node in `l` is done.
fn all_done(l: &Vec<usize>, done: &Vec<bool>) -> (r: bool)
    requires
        all_below(l@, done@.len() as int),
    ensures
        r == forall|i: int| 0 <= i < l@.len() ==> done@[(#[trigger] l@[i]) as int],
{
    let n: usize = l.len();
    let mut i: usize = 0;
    while i < n
        invariant
            n == l@.len(),
            i <= n,
            all_below(l@, done@.len() as int),
            forall|k: int| 0 <= k < i ==> done@[(#[trigger] l@[k]) as int],
        decreases n - i,
    {
        if !done[l[i]] {
            return false;
        }
        i += 1;
    }
    true
}

/// Where the sort stands: `done` marks the nodes taken from the queue, `queued` those in it.
spec fn sort_ok(
    queue: Seq<usize>,
    head: int,
    done: Seq<bool>,
    queued: Seq<bool>,
    adj: Seq<Set<int>>,
) -> bool {
    &&& done.len() == adj.len()
    &&& queued.len() == adj.len()
    &&& 0 <= head <= queue.len()
    &&& queue.no_duplicates()
    &&& forall|i: int| 0 <= i < queue.len() ==> (#[trigger] queue[i]) < adj.len()
    &&& forall|i: int| 0 <= i < queue.len() ==> queued[(#[trigger] queue[i]) as int]
    &&& forall|v: int| 0 <= v < adj.len() && #[trigger] queued[v] ==> queue.contains(v as usize)
    &&& forall|i: int| 0 <= i < head ==> done[(#[trigger] queue[i]) as int]
    &&& forall|v: int|
        0 <= v < adj.len() && #[trigger] done[v] ==> exists|i: int|
            0 <= i < head && (#[trigger] queue[i]) == v
    &&& forall|i: int| 0 <= i < queue.len() ==> #[trigger] settled(queue, adj, i)
}

/// Whether some node that `v` depends on is not done.
spec fn waits(done: Seq<bool>, adj: Seq<Set<int>>, v: int) -> bool {
    exists|u: int| #[trigger] adj[v].contains(u) && !done[u]
}

proof fn lemma_list_done(preds: Seq<Seq<usize>>, done: Seq<bool>, v: int)
    requires
        loop_free(preds),
        0 <= v < preds.len(),
        done.len() == preds.len(),
    ensures
        (forall|i: int| 0 <= i < preds[v].len() ==> done[(#[trigger] preds[v][i]) as int]) == !waits(
            done,
            adjacency(preds),
            v,
        ),
{
    let adj = adjacency(preds);
    let all = forall|i: int| 0 <= i < preds[v].len() ==> done[(#[trigger] preds[v][i]) as int];
    if all && waits(done, adj, v) {
        let u = choose|u: int| #[trigger] adj[v].contains(u) && !done[u];
        let i = preds[v].index_of(u as usize);
        assert(preds[v][i] == u);
    }
    if !all {
        let i = choose|i: int|
            0 <= i < preds[v].len() && !done[(#[trigger] preds[v][i]) as int];
        let u = preds[v][i] as int;
        assert(preds[v].contains(u as usize));
        assert(adj[v].contains(u));
    }
}

/// Adding to the queue a node whose dependencies are all done keeps the sort in order.
proof fn lemma_push_ok(
    queue: Seq<usize>,
    head: int,
    done: Seq<bool>,
    queued: Seq<bool>,
    adj: Seq<Set<int>>,
    v: usize,
)
    requires
        sort_ok(queue, head, done, queued, adj),
        v < adj.len(),
        !queued[v as int],
        !waits(done, adj, v as int),
        forall|u: int| #[trigger] adj[v as int].contains(u) ==> 0 <= u < adj.len(),
    ensures
        sort_ok(queue.push(v), head, done, queued.update(v as int, true), adj),
{
    let q = queue.push(v);
    let f = queued.update(v as int, true);
    assert forall|i: int, j: int| 0 <= i < q.len() && 0 <= j < q.len() && i != j implies q[i] != q[j] by {
        if i < queue.len() && j < queue.len() {
        } else if i < queue.len() {
            assert(queued[queue[i] as int]);
        } else {
            assert(queued[queue[j] as int]);
        }
    }
    assert forall|x: int| 0 <= x < adj.len() && #[trigger] f[x] implies q.contains(x as usize) by {
        lemma_contains_push(queue, v, x as usize);
        if x != v {
            assert(queued[x]);
        }
    }
    assert forall|x: int| 0 <= x < adj.len() && #[trigger] done[x] implies exists|i: int|
        0 <= i < head && (#[trigger] q[i]) == x by {
        let i = choose|i: int| 0 <= i < head && (#[trigger] queue[i]) == x;
        assert(q[i] == x);
    }
    assert forall|i: int| 0 <= i < q.len() implies #[trigger] settled(q, adj, i) by {
        if i < queue.len() {
            assert(settled(queue, adj, i));
            assert forall|u: int| #[trigger] adj[q[i] as int].contains(u) implies exists|j: int|
                0 <= j < i && (#[trigger] q[j]) == u by {
                let j = choose|j: int| 0 <= j < i && (#[trigger] queue[j]) == u;
                assert(q[j] == u);
            }
        } else {
            assert forall|u: int| #[trigger] adj[q[i] as int].contains(u) implies exists|j: int|
                0 <= j < i && (#[trigger] q[j]) == u by {
                assert(done[u]);
                let j = choose|j: int| 0 <= j < head && (#[trigger] queue[j]) == u;
                assert(q[j] == u);
            }
        }
    }
}

/// A topological order of the nodes (Kahn), with what a cycle holds back at the end.
fn topological_order(preds: &Vec<Vec<usize>>, succs: &Vec<Vec<usize>>) -> (r: (
    Vec<usize>,
    Ghost<int>,
))
    requires
        loop_free(lists(preds@)),
        loop_free(lists(succs@)),
        succs@.len() == preds@.len(),
        adjacency(lists(succs@)) == flipped(adjacency(lists(preds@))),
    ensures
        is_order(r.0@, adjacency(lists(preds@)), r.1@),
{
    let n: usize = preds.len();
    let ghost ps = lists(preds@);
    let ghost adj = adjacency(ps);
    let mut done: Vec<bool> = vec![false; n];
    let mut queued: Vec<bool> = vec![false; n];
    let mut queue: Vec<usize> = Vec::new();
    let mut v: usize = 0;
    assert(sort_ok(queue@, 0, done@, queued@, adj));
    while v < n
        invariant
            n == preds@.len(),
            v <= n,
            ps == lists(preds@),
            adj == adjacency(ps),
            loop_free(ps),
            sort_ok(queue@, 0, done@, queued@, adj),
            forall|x: int| 0 <= x < n ==> !(#[trigger] done@[x]),
            forall|x: int| v <= x < n ==> !(#[trigger] queued@[x]),
            forall|x: int| 0 <= x < v && !queued@[x] ==> #[trigger] waits(done@, adj, x),
        decreases n - v,
    {
        if preds[v].len() == 0 {
            proof {
                lemma_list_done(ps, done@, v as int);
                lemma_push_ok(queue@, 0, done@, queued@, adj, v);
            }
            queue.push(v);
            queued.set(v, true);
        } else {
            proof {
                let u = ps[v as int][0] as int;
                assert(all_below(ps[v as int], n as int));
                assert(ps[v as int].contains(u as usize));
                assert(adj[v as int].contains(u));
                assert(waits(done@, adj, v as int));
            }
        }
        v += 1;
    }
    let mut head: usize = 0;
    while head < queue.len()
        invariant
            n == preds@.len(),
            ps == lists(preds@),
            adj == adjacency(ps),
            loop_free(ps),
            loop_free(lists(succs@)),
            succs@.len() == n,
            adjacency(lists(succs@)) == flipped(adj),
            sort_ok(queue@, head as int, done@, queued@, adj),
            forall|x: int| 0 <= x < n && !queued@[x] ==> #[trigger] waits(done@, adj, x),
            forall|x: int| 0 <= x < n && #[trigger] done@[x] ==> queued@[x],
        decreases n - head, queue@.len() - head,
    {
        let u: usize = queue[head];
        let ghost before = done@;
        let ghost q0 = queue@;
        proof {
            assert forall|x: int| 0 <= x < n && #[trigger] done@.update(u as int, true)[x] implies exists|i: int|
                0 <= i < head + 1 && (#[trigger] queue@[i]) == x by {
                if x == u {
                    assert(queue@[head as int] == x);
                } else {
                    assert(done@[x]);
                }
            }
            lemma_queue_bound(queue@, adj.len() as int);
        }
        done.set(u, true);
        head += 1;
        let m: usize = succs[u].len();
        let mut j: usize = 0;
        proof {
            assert(all_below(lists(succs@)[u as int], n as int));
            assert(sort_ok(queue@, head as int, done@, queued@, adj));
            assert forall|x: int|
                0 <= x < n && !queued@[x] && !adj[x].contains(u as int) implies #[trigger] waits(
                done@,
                adj,
                x,
            ) by {
                assert(waits(before, adj, x));
                let w = choose|w: int| #[trigger] adj[x].contains(w) && !before[w];
                assert(adj[x].contains(w) && !done@[w]);
            }
            assert forall|x: int|
                0 <= x < n && !queued@[x] && !succs@[u as int]@.contains(x as usize) implies #[trigger] waits(
                done@,
                adj,
                x,
            ) by {
                let f = adjacency(lists(succs@))[u as int];
                assert(f.contains(x) == lists(succs@)[u as int].contains(x as usize));
                assert(flipped(adj)[u as int].contains(x) == adj[x].contains(u as int));
            }
            assert(succs@[u as int]@.skip(0) =~= succs@[u as int]@);
        }
        while j < m
            invariant
                n == preds@.len(),
                ps == lists(preds@),
                adj == adjacency(ps),
                loop_free(ps),
                u < n,
                succs@.len() == n,
                m == succs@[u as int]@.len(),
                j <= m,
                all_below(succs@[u as int]@, n as int),
                sort_ok(queue@, head as int, done@, queued@, adj),
                forall|x: int|
                    0 <= x < n && !queued@[x] && !succs@[u as int]@.skip(j as int).contains(
                        x as usize,
                    ) ==> #[trigger] waits(done@, adj, x),
                forall|x: int| 0 <= x < n && #[trigger] done@[x] ==> queued@[x],
            decreases m - j,
        {
            let v: usize = succs[u][j];
            let ghost rest = succs@[u as int]@.skip(j as int);
            let ghost queued0 = queued@;
            proof {
                lemma_list_done(ps, done@, v as int);
                assert(all_below(ps[v as int], n as int));
                assert(rest[0] == v);
                assert(rest.drop_first() =~= succs@[u as int]@.skip(j + 1));
            }
            if !queued[v] && all_done(&preds[v], &done) {
                proof {
                    lemma_push_ok(queue@, head as int, done@, queued@, adj, v);
                }
                queue.push(v);
                queued.set(v, true);
            }
            proof {
                assert forall|x: int|
                    0 <= x < n && !queued@[x] && !succs@[u as int]@.skip(j + 1).contains(
                        x as usize,
                    ) implies #[trigger] waits(done@, adj, x) by {
                    if x != v {
                        assert(!queued0[x]);
                        if rest.contains(x as usize) {
                            let i = rest.index_of(x as usize);
                            assert(rest.drop_first()[i - 1] == x as usize);
                        }
                    }
                }
            }
            j += 1;
        }
        proof {
            assert(succs@[u as int]@.skip(m as int) =~= Seq::empty());
        }
    }
    let ghost k = queue@.len() as int;
    let ghost prefix = queue@;
    let mut v: usize = 0;
    while v < n
        invariant
            n == adj.len(),
            v <= n,
            queued@.len() == n,
            0 <= k <= queue@.len(),
            prefix.len() == k,
            queue@.take(k) == prefix,
            forall|x: int| 0 <= x < n ==> (#[trigger] queued@[x] <==> prefix.contains(x as usize)),
            forall|i: int| k <= i < queue@.len() ==> (#[trigger] queue@[i]) < v && !queued@[queue@[i] as int],
            forall|x: int| 0 <= x < v ==> queued@[x] || #[trigger] queue@.contains(x as usize),
            forall|i: int, j: int| k <= i < j < queue@.len() ==> queue@[i] < queue@[j],
        decreases n - v,
    {
        let ghost q0 = queue@;
        if !queued[v] {
            queue.push(v);
        }
        proof {
            assert(queue@.take(k) =~= prefix);
            assert forall|x: int| 0 <= x < v + 1 implies queued@[x] || #[trigger] queue@.contains(
                x as usize,
            ) by {
                lemma_contains_push(q0, v, x as usize);
                if x < v {
                    assert(queued@[x] || q0.contains(x as usize));
                }
            }
        }
        v += 1;
    }
    proof {
        let order = queue@;
        assert forall|i: int| 0 <= i < k implies order[i] == prefix[i] by {
            assert(order.take(k)[i] == prefix[i]);
        }
        assert forall|i: int, j: int| 0 <= i < order.len() && 0 <= j < order.len() && i
            != j implies order[i] != order[j] by {
            if i < k && j < k {
                assert(prefix[i] != prefix[j]);
            } else if i < k {
                assert(prefix.contains(prefix[i]));
                assert(queued@[prefix[i] as int]);
            } else if j < k {
                assert(prefix.contains(prefix[j]));
                assert(queued@[prefix[j] as int]);
            }
        }
        assert(order.no_duplicates());
        lemma_order_len(order, n as int);
        assert forall|i: int| 0 <= i < k implies #[trigger] settled(order, adj, i) by {
            assert(settled(prefix, adj, i));
            assert forall|u: int| #[trigger] adj[order[i] as int].contains(u) implies exists|j: int|
                0 <= j < i && (#[trigger] order[j]) == u by {
                let j = choose|j: int| 0 <= j < i && (#[trigger] prefix[j]) == u;
                assert(order[j] == u);
            }
        }
        assert forall|i: int| k <= i < order.len() implies #[trigger] stuck(order, adj, k, i) by {
            let x = order[i] as int;
            assert(waits(done@, adj, x));
            let u = choose|u: int| #[trigger] adj[x].contains(u) && !done@[u];
            assert forall|j: int| 0 <= j < k implies (#[trigger] order[j]) != u by {
                assert(done@[prefix[j] as int]);
            }
            assert(adj[order[i] as int].contains(u));
        }
    }
    (queue, Ghost(k))
}

/// A list of distinct indices below `n` has at most `n` entries.
proof fn lemma_queue_bound(q: Seq<usize>, n: int)
    requires
        q.no_duplicates(),
        0 <= n,
        forall|i: int| 0 <= i < q.len() ==> (#[trigger] q[i]) < n,
    ensures
        q.len() <= n,
{
    let s = q.map_values(|x: usize| x as int);
    assert(s.no_duplicates());
    s.unique_seq_to_set();
    let range = vstd::set_lib::set_int_range(0, n);
    vstd::set_lib::lemma_int_range(0, n);
    assert(s.to_set().subset_of(range));
    vstd::set_lib::lemma_len_subset(s.to_set(), range);
}

/// A list of distinct indices that holds each index below `n` has `n` entries.
proof fn lemma_order_len(q: Seq<usize>, n: int)
    requires
        q.no_duplicates(),
        0 <= n <= usize::MAX + 1,
        forall|i: int| 0 <= i < q.len() ==> (#[trigger] q[i]) < n,
        forall|x: int| 0 <= x < n ==> #[trigger] q.contains(x as usize),
    ensures
        q.len() == n,
{
    let s = q.map_values(|x: usize| x as int);
    assert(s.no_duplicates());
    s.unique_seq_to_set();
    let range = vstd::set_lib::set_int_range(0, n);
    vstd::set_lib::lemma_int_range(0, n);
    assert forall|x: int| range.contains(x) implies s.to_set().contains(x) by {
        assert(q.contains(x as usize));
        let i = q.index_of(x as usize);
        assert(s[i] == x);
    }
    assert(s.to_set() =~= range);
}

// --- sweeping ---------------------------------------------------------------------------

/// The sets held in `v`.
pub open spec fn sets_of(v: Seq<Bits>) -> Seq<Set<int>> {
    v.map_values(|b: Bits| set_of(b@))
}

/// Disjoint mutable borrows of two different elements.
fn split_two<T>(v: &mut Vec<T>, a: usize, b: usize) -> (r: (&mut T, &mut T))
    requires
        a != b,
        a < old(v)@.len(),
        b < old(v)@.len(),
    ensures
        *r.0 == old(v)@[a as int],
        *r.1 == old(v)@[b as int],
        final(v)@ == old(v)@.update(a as int, *final(r.0)).update(b as int, *final(r.1)),
{
    let s: &mut [T] = v.as_mut_slice();
    if a < b {
        let (lo, hi) = s.split_at_mut(b);
        (&mut lo[a], &mut hi[0])
    } else {
        let (lo, hi) = s.split_at_mut(a);
        (&mut hi[0], &mut lo[b])
    }
}

/// `n` empty sets over `w` words.
fn empty_sets(n: usize, w: usize) -> (r: Vec<Bits>)
    ensures
        r@.len() == n,
        forall|i: int| 0 <= i < n ==> (#[trigger] r@[i])@.len() == w,
        forall|i: int, j: int| 0 <= i < n ==> !#[trigger] bit(r@[i]@, j),
        sets_of(r@) == Seq::new(n as nat, |i: int| Set::<int>::empty()),
{
    let mut r: Vec<Bits> = Vec::new();
    let mut i: usize = 0;
    while i < n
        invariant
            i <= n,
            r@.len() == i,
            forall|k: int| 0 <= k < i ==> (#[trigger] r@[k])@.len() == w,
            forall|k: int, j: int| 0 <= k < i ==> !#[trigger] bit(r@[k]@, j),
        decreases n - i,
    {
        r.push(empty_bits(w));
        i += 1;
    }
    proof {
        assert forall|k: int| 0 <= k < n implies set_of(#[trigger] r@[k]@) == Set::<int>::empty() by {
            assert(set_of(r@[k]@) =~= Set::<int>::empty());
        }
        assert(sets_of(r@) =~= Seq::new(n as nat, |i: int| Set::<int>::empty()));
    }
    r
}

/// What each node gathers from the nodes listed for it, in one sweep over `order`.
fn sweep(order: &Vec<usize>, adj: &Vec<Vec<usize>>, w: usize) -> (r: Vec<Bits>)
    requires
        loop_free(lists(adj@)),
        all_below(order@, adj@.len() as int),
        adj@.len() <= 64 * w,
    ensures
        r@.len() == adj@.len(),
        forall|i: int| 0 <= i < r@.len() ==> (#[trigger] r@[i])@.len() == w,
        sets_of(r@) == swept(order@, adjacency(lists(adj@))),
        forall|i: int, j: int| 0 <= i < r@.len() && #[trigger] bit(r@[i]@, j) ==> 0 <= j < adj@.len(),
{
    let n: usize = adj.len();
    let ghost ls = lists(adj@);
    let ghost sets = adjacency(ls);
    let mut r: Vec<Bits> = empty_sets(n, w);
    let len: usize = order.len();
    let mut i: usize = 0;
    assert(order@.take(0) =~= Seq::empty());
    while i < len
        invariant
            n == adj@.len(),
            ls == lists(adj@),
            sets == adjacency(ls),
            loop_free(ls),
            len == order@.len(),
            all_below(order@, n as int),
            n <= 64 * w,
            i <= len,
            r@.len() == n,
            forall|q: int| 0 <= q < n ==> (#[trigger] r@[q])@.len() == w,
            sets_of(r@) == swept(order@.take(i as int), sets),
            forall|q: int, j: int| 0 <= q < n && #[trigger] bit(r@[q]@, j) ==> 0 <= j < n,
        decreases len - i,
    {
        let v: usize = order[i];
        let m: usize = adj[v].len();
        let ghost r0 = r@;
        let ghost p = swept(order@.take(i as int), sets);
        let mut j: usize = 0;
        while j < m
            invariant
                n == adj@.len(),
                ls == lists(adj@),
                loop_free(ls),
                n <= 64 * w,
                v < n,
                m == adj@[v as int]@.len(),
                j <= m,
                r@.len() == n,
                r0.len() == n,
                forall|q: int| 0 <= q < n ==> (#[trigger] r@[q])@.len() == w,
                forall|q: int| 0 <= q < n && q != v ==> #[trigger] r@[q] == r0[q],
                forall|x: int|
                    #[trigger] bit(r@[v as int]@, x) == (bit(r0[v as int]@, x) || exists|k: int|
                        0 <= k < j && (x == (#[trigger] ls[v as int][k]) || bit(
                            r0[ls[v as int][k] as int]@,
                            x,
                        ))),
                forall|q: int, x: int| 0 <= q < n && #[trigger] bit(r@[q]@, x) ==> 0 <= x < n,
            decreases m - j,
        {
            let u: usize = adj[v][j];
            let ghost before = r@;
            proof {
                assert(all_below(ls[v as int], n as int));
                assert(u == ls[v as int][j as int]);
                assert(ls[v as int].contains(u));
                assert(u != v);
            }
            let (dst, src) = split_two(&mut r, v, u);
            or_into(dst, src);
            set_bit(dst, u);
            proof {
                assert(r@[u as int] == before[u as int]);
                assert forall|x: int|
                    #[trigger] bit(r@[v as int]@, x) == (bit(r0[v as int]@, x) || exists|k: int|
                        0 <= k < j + 1 && (x == (#[trigger] ls[v as int][k]) || bit(
                            r0[ls[v as int][k] as int]@,
                            x,
                        ))) by {
                    assert(bit(r@[v as int]@, x) == (bit(before[v as int]@, x) || bit(
                        before[u as int]@,
                        x,
                    ) || x == u));
                    assert(before[u as int] == r0[u as int]);
                    if bit(before[v as int]@, x) && !bit(r0[v as int]@, x) {
                        let k = choose|k: int|
                            0 <= k < j && (x == (#[trigger] ls[v as int][k]) || bit(
                                r0[ls[v as int][k] as int]@,
                                x,
                            ));
                        assert(0 <= k < j + 1);
                    }
                }
                assert forall|q: int, x: int| 0 <= q < n && #[trigger] bit(r@[q]@, x) implies 0 <= x
                    < n by {
                    if q == v {
                        assert(bit(before[v as int]@, x) || bit(before[u as int]@, x) || x == u);
                    } else {
                        assert(bit(before[q]@, x));
                    }
                }
            }
            j += 1;
        }
        proof {
            assert(order@.take(i + 1).drop_last() =~= order@.take(i as int));
            let now = sets_of(r@);
            let want = p.update(v as int, absorbed(p, sets, v as int));
            assert forall|q: int| 0 <= q < n implies #[trigger] now[q] == want[q] by {
                assert(p[q] == set_of(r0[q]@));
                if q == v {
                    assert forall|x: int| now[q].contains(x) == want[q].contains(x) by {
                        assert(now[q].contains(x) == bit(r@[v as int]@, x));
                        assert(p[q].contains(x) == bit(r0[v as int]@, x));
                        if bit(r@[v as int]@, x) && !bit(r0[v as int]@, x) {
                            let k = choose|k: int|
                                0 <= k < m && (x == (#[trigger] ls[v as int][k]) || bit(
                                    r0[ls[v as int][k] as int]@,
                                    x,
                                ));
                            let u = ls[v as int][k] as int;
                            assert(all_below(ls[v as int], n as int));
                            assert(ls[v as int].contains(u as usize));
                            assert(sets[v as int].contains(u));
                            assert(p[u].contains(x) == bit(r0[u]@, x));
                        }
                        if want[q].contains(x) && !p[q].contains(x) {
                            let u = choose|u: int|
                                #[trigger] sets[v as int].contains(u) && (x == u || p[u].contains(x));
                            let k = ls[v as int].index_of(u as usize);
                            assert(all_below(ls[v as int], n as int));
                            assert(ls[v as int][k] == u);
                            assert(p[u].contains(x) == bit(r0[u]@, x));
                            assert(bit(r@[v as int]@, x));
                        }
                    }
                    assert(now[q] =~= want[q]);
                } else {
                    assert(r@[q] == r0[q]);
                }
            }
            assert(now =~= want);
        }
        i += 1;
    }
    assert(order@.take(len as int) =~= order@);
    r
}

// --- greedy fusion ----------------------------------------------------------------------

/// The number of indices below `k` that stand for themselves.
pub open spec fn roots(rep: Seq<usize>, k: int) -> nat
    decreases k,
{
    if k <= 0 {
        0
    } else {
        roots(rep, k - 1) + if rep[k - 1] == k - 1 {
            1nat
        } else {
            0nat
        }
    }
}

/// Joining two blocks leaves one representative fewer.
pub proof fn lemma_merge_roots(rep: Seq<usize>, ra: usize, rb: usize, k: int)
    requires
        0 <= k <= rep.len(),
        ra < rep.len(),
        rb < rep.len(),
        ra != rb,
        rep[ra as int] == ra,
        rep[rb as int] == rb,
    ensures
        roots(rep, k) == roots(merged(rep, ra, rb), k) + if rb < k {
            1nat
        } else {
            0nat
        },
    decreases k,
{
    if k > 0 {
        lemma_merge_roots(rep, ra, rb, k - 1);
    }
}

/// The blocks under construction. For each representative: its members, and what lies
/// upstream and downstream of them.
struct Fusion {
    uf: Uf,
    members: Vec<Bits>,
    above: Vec<Bits>,
    below: Vec<Bits>,
}

/// Whether some way upstream from the joined block ends at block `c`.
spec fn climbed(rep: Seq<usize>, anc: Seq<Set<int>>, ra: usize, rb: usize, c: usize) -> bool {
    exists|w: Seq<usize>| #[trigger] climbs(rep, anc, ra, rb, w) && w.last() == c
}

/// Whether the queue lists exactly the marked indices, each once.
spec fn queue_ok(queue: Seq<usize>, seen: Seq<bool>, n: int) -> bool {
    &&& seen.len() == n
    &&& queue.no_duplicates()
    &&& forall|k: int| 0 <= k < queue.len() ==> (#[trigger] queue[k]) < n && seen[queue[k] as int]
    &&& forall|c: int| 0 <= c < n && #[trigger] seen[c] ==> queue.contains(c as usize)
}

/// Whether a node in `b` and not in `mask` lies in block `c`.
spec fn met(rep: Seq<usize>, b: Seq<u64>, mask: Seq<u64>, c: usize) -> bool {
    exists|x: int| #[trigger] bit(b, x) && !bit(mask, x) && rep[x] == c
}

/// Marks the blocks of the nodes in `b` and not in `mask`; those that were not marked before
/// join the queue.
fn gather(uf: &mut Uf, b: &Bits, mask: &Bits, seen: &mut Vec<bool>, queue: &mut Vec<usize>)
    requires
        old(uf).wf(),
        b@.len() == mask@.len(),
        64 * b@.len() <= usize::MAX,
        forall|x: int| #[trigger] bit(b@, x) ==> 0 <= x < old(uf).rep@.len(),
        queue_ok(old(queue)@, old(seen)@, old(uf).rep@.len() as int),
    ensures
        final(uf).wf(),
        final(uf).rep@ == old(uf).rep@,
        queue_ok(final(queue)@, final(seen)@, old(uf).rep@.len() as int),
        old(queue)@.len() <= final(queue)@.len(),
        forall|k: int| 0 <= k < old(queue)@.len() ==> #[trigger] final(queue)@[k] == old(queue)@[k],
        forall|k: int|
            old(queue)@.len() <= k < final(queue)@.len() ==> met(
                old(uf).rep@,
                b@,
                mask@,
                #[trigger] final(queue)@[k],
            ),
        forall|x: int|
            #[trigger] bit(b@, x) && !bit(mask@, x) ==> final(seen)@[old(uf).rep@[x] as int],
        forall|c: int|
            0 <= c < old(uf).rep@.len() && old(seen)@[c] ==> #[trigger] final(seen)@[c],
        forall|c: int|
            0 <= c < old(uf).rep@.len() && #[trigger] final(seen)@[c] ==> old(seen)@[c] || met(
                old(uf).rep@,
                b@,
                mask@,
                c as usize,
            ),
{
    let ghost rep = uf.rep@;
    let ghost n = rep.len() as int;
    let ghost (q0, s0) = (queue@, seen@);
    let mut scratch: Vec<usize> = Vec::new();
    set_bits_outside(b, mask, &mut scratch);
    let len: usize = scratch.len();
    let mut i: usize = 0;
    while i < len
        invariant
            len == scratch@.len(),
            i <= len,
            uf.wf(),
            uf.rep@ == rep,
            n == rep.len(),
            queue_ok(queue@, seen@, n),
            q0.len() <= queue@.len(),
            forall|k: int|
                0 <= k < len ==> (#[trigger] scratch@[k]) < n && bit(b@, scratch@[k] as int)
                    && !bit(mask@, scratch@[k] as int),
            forall|k: int| 0 <= k < q0.len() ==> #[trigger] queue@[k] == q0[k],
            forall|k: int|
                q0.len() <= k < queue@.len() ==> met(rep, b@, mask@, #[trigger] queue@[k]),
            forall|k: int| 0 <= k < i ==> seen@[rep[(#[trigger] scratch@[k]) as int] as int],
            forall|c: int| 0 <= c < n && s0[c] ==> #[trigger] seen@[c],
            forall|c: int|
                0 <= c < n && #[trigger] seen@[c] ==> s0[c] || met(rep, b@, mask@, c as usize),
        decreases len - i,
    {
        let r: usize = uf.find(scratch[i]);
        if !seen[r] {
            let ghost (q1, s1) = (queue@, seen@);
            seen.set(r, true);
            queue.push(r);
            proof {
                let y = scratch@[i as int] as int;
                assert(bit(b@, y) && !bit(mask@, y) && rep[y] == r);
                assert forall|k: int| 0 <= k < queue@.len() implies (#[trigger] queue@[k]) < n
                    && seen@[queue@[k] as int] by {
                    if k < q1.len() {
                        assert(queue@[k] == q1[k]);
                    }
                }
                assert forall|c: int| 0 <= c < n && #[trigger] seen@[c] implies queue@.contains(
                    c as usize,
                ) by {
                    if c == r {
                        assert(queue@[q1.len() as int] == c as usize);
                    } else {
                        assert(s1[c]);
                        let k = q1.index_of(c as usize);
                        assert(queue@[k] == c as usize);
                    }
                }
                assert forall|a: int, c: int|
                    0 <= a < queue@.len() && 0 <= c < queue@.len() && a != c implies queue@[a]
                    != queue@[c] by {
                    if a < q1.len() {
                        assert(s1[q1[a] as int]);
                    }
                    if c < q1.len() {
                        assert(s1[q1[c] as int]);
                    }
                }
                assert forall|k: int| 0 <= k < q0.len() implies #[trigger] queue@[k] == q0[k] by {
                    assert(q1[k] == q0[k]);
                }
                assert(met(rep, b@, mask@, r));
                assert forall|k: int| q0.len() <= k < queue@.len() implies met(
                    rep,
                    b@,
                    mask@,
                    #[trigger] queue@[k],
                ) by {
                    if k < q1.len() {
                        assert(queue@[k] == q1[k]);
                    }
                }
                assert forall|c: int| 0 <= c < n && #[trigger] seen@[c] implies s0[c] || met(
                    rep,
                    b@,
                    mask@,
                    c as usize,
                ) by {
                    if c != r {
                        assert(s1[c]);
                    }
                }
            }
        }
        i += 1;
    }
    assert forall|x: int| #[trigger] bit(b@, x) && !bit(mask@, x) implies seen@[rep[x] as int] by {
        assert(scratch@.contains(x as usize));
        let k = scratch@.index_of(x as usize);
        assert(seen@[rep[scratch@[k] as int] as int]);
    }
}

proof fn lemma_reached_bound(rep: Seq<usize>, rel: Seq<Set<int>>, ra: usize, rb: usize, x: int)
    requires
        block_reaches(rep, rel, ra, rb, x),
        forall|m: int, x: int|
            0 <= m < rep.len() && #[trigger] rel[m].contains(x) ==> 0 <= x < rep.len(),
    ensures
        0 <= x < rep.len(),
{
    let m = choose|m: int|
        0 <= m < rep.len() && in_block(rep, ra, rb, m) && (#[trigger] rel[m]).contains(x);
    assert(rel[m].contains(x));
}

proof fn lemma_leads_bound(rep: Seq<usize>, rel: Seq<Set<int>>, r: int, x: int)
    requires
        leads(rep, rel, r, x),
        forall|m: int, x: int|
            0 <= m < rep.len() && #[trigger] rel[m].contains(x) ==> 0 <= x < rep.len(),
    ensures
        0 <= x < rep.len(),
{
    let m = choose|m: int| 0 <= m < rep.len() && rep[m] == r && (#[trigger] rel[m]).contains(x);
    assert(rel[m].contains(x));
}

/// Once no block is left to look at, every way upstream has been followed.
proof fn lemma_climb_seen(
    rep: Seq<usize>,
    anc: Seq<Set<int>>,
    ra: usize,
    rb: usize,
    way: Seq<usize>,
    queue: Seq<usize>,
    seen: Seq<bool>,
    i: int,
)
    requires
        reps_ok(rep),
        climbs(rep, anc, ra, rb, way),
        queue_ok(queue, seen, rep.len() as int),
        forall|x: int|
            0 <= x < rep.len() && #[trigger] block_reaches(rep, anc, ra, rb, x) && !in_block(
                rep,
                ra,
                rb,
                x,
            ) ==> seen[rep[x] as int],
        forall|k: int, x: int|
            0 <= k < queue.len() && 0 <= x < rep.len() && #[trigger] leads(
                rep,
                anc,
                (#[trigger] queue[k]) as int,
                x,
            ) && !in_block(rep, ra, rb, x) ==> seen[rep[x] as int],
        0 <= i < way.len(),
    ensures
        way[i] < rep.len(),
        seen[way[i] as int],
        queue.contains(way[i]),
    decreases i,
{
    if i == 0 {
        let x = choose|x: int|
            0 <= x < rep.len() && rep[x] == way[0] && #[trigger] block_reaches(rep, anc, ra, rb, x);
        assert(!in_block(rep, ra, rb, x));
        assert(seen[rep[x] as int]);
    } else {
        lemma_climb_seen(rep, anc, ra, rb, way, queue, seen, i - 1);
        let k = queue.index_of(way[i - 1]);
        assert(queue[k] == way[i - 1]);
        assert(leads_on(rep, anc, way[i - 1], way[i]));
        let x = choose|x: int|
            0 <= x < rep.len() && rep[x] == way[i] && #[trigger] leads(
                rep,
                anc,
                way[i - 1] as int,
                x,
            );
        assert(leads(rep, anc, queue[k] as int, x));
        assert(!in_block(rep, ra, rb, x));
    }
}

impl Fusion {
    spec fn shape_ok(&self, n: int, w: int) -> bool {
        &&& self.uf.wf()
        &&& self.uf.rep@.len() == n
        &&& self.members@.len() == n
        &&& self.above@.len() == n
        &&& self.below@.len() == n
        &&& forall|i: int| 0 <= i < n ==> (#[trigger] self.members@[i])@.len() == w
        &&& forall|i: int| 0 <= i < n ==> (#[trigger] self.above@[i])@.len() == w
        &&& forall|i: int| 0 <= i < n ==> (#[trigger] self.below@[i])@.len() == w
        &&& n <= 64 * w
        &&& 64 * w <= usize::MAX
    }

    spec fn tables_ok(&self, supported: Seq<bool>, anc: Seq<Set<int>>, desc: Seq<Set<int>>) -> bool {
        let rep = self.uf.rep@;
        &&& supported.len() == rep.len()
        &&& anc.len() == rep.len()
        &&& desc.len() == rep.len()
        &&& forall|m: int, x: int|
            0 <= m < rep.len() && #[trigger] anc[m].contains(x) ==> 0 <= x < rep.len()
        &&& forall|m: int, x: int|
            0 <= m < rep.len() && #[trigger] desc[m].contains(x) ==> 0 <= x < rep.len()
        &&& forall|x: int|
            0 <= x < rep.len() ==> (if supported[x] {
                supported[rep[x] as int]
            } else {
                (#[trigger] rep[x]) == x
            })
        &&& forall|r: int, x: int|
            0 <= r < rep.len() && rep[r] == r ==> (#[trigger] bit(self.members@[r]@, x) == (0 <= x
                < rep.len() && supported[x] && rep[x] == r))
        &&& forall|r: int, x: int|
            0 <= r < rep.len() && rep[r] == r ==> (#[trigger] bit(self.above@[r]@, x) == leads(
                rep,
                anc,
                r,
                x,
            ))
        &&& forall|r: int, x: int|
            0 <= r < rep.len() && rep[r] == r ==> (#[trigger] bit(self.below@[r]@, x) == leads(
                rep,
                desc,
                r,
                x,
            ))
    }

    /// Whether joining `ra` and `rb` would close a ring. The sets are the members of the joined
    /// block and what lies upstream and downstream of them.
    fn straddled(
        &mut self,
        ra: usize,
        rb: usize,
        sets: (&Bits, &Bits, &Bits),
        w: usize,
        Ghost(supported): Ghost<Seq<bool>>,
        Ghost(anc): Ghost<Seq<Set<int>>>,
        Ghost(desc): Ghost<Seq<Set<int>>>,
    ) -> (r: bool)
        requires
            old(self).shape_ok(old(self).uf.rep@.len() as int, w as int),
            old(self).tables_ok(supported, anc, desc),
            sets.0@.len() == w,
            sets.1@.len() == w,
            sets.2@.len() == w,
            forall|x: int|
                #[trigger] bit(sets.0@, x) == (0 <= x < old(self).uf.rep@.len() && in_block(
                    old(self).uf.rep@,
                    ra,
                    rb,
                    x,
                )),
            forall|x: int|
                #[trigger] bit(sets.1@, x) == block_reaches(old(self).uf.rep@, anc, ra, rb, x),
            forall|x: int|
                #[trigger] bit(sets.2@, x) == block_reaches(old(self).uf.rep@, desc, ra, rb, x),
        ensures
            final(self).uf.wf(),
            final(self).uf.rep@ == old(self).uf.rep@,
            final(self).members == old(self).members,
            final(self).above == old(self).above,
            final(self).below == old(self).below,
            r == traps(old(self).uf.rep@, anc, desc, ra, rb),
    {
        let (ms, ma, md) = sets;
        let ghost rep = self.uf.rep@;
        let n: usize = self.members.len();
        let ghost (above, below, mems) = (self.above, self.below, self.members);
        assert forall|x: int| #[trigger] bit(ma@, x) implies 0 <= x < n by {
            lemma_reached_bound(rep, anc, ra, rb, x);
        }
        assert forall|x: int| #[trigger] bit(md@, x) implies 0 <= x < n by {
            lemma_reached_bound(rep, desc, ra, rb, x);
        }
        let mut down: Vec<bool> = vec![false; n];
        let mut below_us: Vec<usize> = Vec::new();
        gather(&mut self.uf, md, ms, &mut down, &mut below_us);
        assert forall|c: int| 0 <= c < n implies (#[trigger] down@[c] == met(
            rep,
            md@,
            ms@,
            c as usize,
        )) by {
            if met(rep, md@, ms@, c as usize) {
                let x = choose|x: int| #[trigger] bit(md@, x) && !bit(ms@, x) && rep[x] == c;
                assert(down@[rep[x] as int]);
            }
        }
        let mut seen: Vec<bool> = vec![false; n];
        let mut queue: Vec<usize> = Vec::new();
        gather(&mut self.uf, ma, ms, &mut seen, &mut queue);
        proof {
            assert forall|k: int| 0 <= k < queue@.len() implies climbed(
                rep,
                anc,
                ra,
                rb,
                #[trigger] queue@[k],
            ) by {
                assert(met(rep, ma@, ms@, queue@[k]));
                let x = choose|x: int|
                    #[trigger] bit(ma@, x) && !bit(ms@, x) && rep[x] == queue@[k];
                let way = seq![queue@[k]];
                assert(block_reaches(rep, anc, ra, rb, x));
                assert(!in_block(rep, ra, rb, x));
                assert(enters(rep, anc, ra, rb, way[0]));
                assert(climbs(rep, anc, ra, rb, way) && way.last() == queue@[k]);
            }
        }
        let mut head: usize = 0;
        while head < queue.len()
            invariant
                n == rep.len(),
                rep == old(self).uf.rep@,
                self.uf.wf(),
                self.uf.rep@ == rep,
                self.members == mems,
                self.above == above,
                self.below == below,
                mems == old(self).members,
                above == old(self).above,
                below == old(self).below,
                self.shape_ok(n as int, w as int),
                self.tables_ok(supported, anc, desc),
                ms@.len() == w,
                head <= queue@.len(),
                queue_ok(queue@, seen@, n as int),
                forall|x: int|
                    #[trigger] bit(ms@, x) == (0 <= x < n && in_block(rep, ra, rb, x)),
                forall|k: int|
                    0 <= k < queue@.len() ==> climbed(rep, anc, ra, rb, #[trigger] queue@[k]),
                forall|k: int|
                    0 <= k < queue@.len() ==> rep[(#[trigger] queue@[k]) as int] == queue@[k],
                forall|x: int| #[trigger] bit(ma@, x) && !bit(ms@, x) ==> seen@[rep[x] as int],
                forall|k: int| 0 <= k < head ==> !down@[(#[trigger] queue@[k]) as int],
                forall|k: int, x: int|
                    0 <= k < head && #[trigger] leads(rep, anc, (#[trigger] queue@[k]) as int, x)
                        && !bit(ms@, x) ==> seen@[rep[x] as int],
                down@.len() == n,
                forall|c: int|
                    0 <= c < n ==> (#[trigger] down@[c] == met(rep, md@, ms@, c as usize)),
                forall|x: int|
                    #[trigger] bit(md@, x) == block_reaches(rep, desc, ra, rb, x),
                forall|x: int|
                    #[trigger] bit(ma@, x) == block_reaches(rep, anc, ra, rb, x),
            decreases n - head,
        {
            proof {
                lemma_queue_bound(queue@, n as int);
            }
            let c: usize = queue[head];
            if down[c] {
                proof {
                    let x = choose|x: int| #[trigger] bit(md@, x) && !bit(ms@, x) && rep[x] == c;
                    lemma_reached_bound(rep, desc, ra, rb, x);
                    assert(block_reaches(rep, desc, ra, rb, x));
                    assert(enters(rep, desc, ra, rb, c));
                    let way = choose|way: Seq<usize>|
                        #[trigger] climbs(rep, anc, ra, rb, way) && way.last() == c;
                    assert(climbs(rep, anc, ra, rb, way) && enters(rep, desc, ra, rb, way.last()));
                }
                return true;
            }
            let ghost was = queue@;
            let ghost seen0 = seen@;
            proof {
                assert forall|x: int| #[trigger] bit(self.above@[c as int]@, x) implies 0 <= x < n by {
                    assert(leads(rep, anc, c as int, x));
                }
            }
            gather(&mut self.uf, &self.above[c], ms, &mut seen, &mut queue);
            proof {
                assert forall|k: int| 0 <= k < queue@.len() implies climbed(
                    rep,
                    anc,
                    ra,
                    rb,
                    #[trigger] queue@[k],
                ) by {
                    if k < was.len() {
                        assert(queue@[k] == was[k]);
                    } else {
                        assert(met(rep, above@[c as int]@, ms@, queue@[k]));
                        let x = choose|x: int|
                            #[trigger] bit(above@[c as int]@, x) && !bit(ms@, x) && rep[x]
                                == queue@[k];
                        assert(leads(rep, anc, c as int, x));
                        assert(climbed(rep, anc, ra, rb, was[head as int]));
                        let way = choose|way: Seq<usize>|
                            #[trigger] climbs(rep, anc, ra, rb, way) && way.last() == c;
                        let longer = way.push(queue@[k]);
                        assert(!in_block(rep, ra, rb, x));
                        assert(leads_on(rep, anc, c, queue@[k]));
                        assert forall|i: int| 0 < i < longer.len() implies leads_on(
                            rep,
                            anc,
                            longer[i - 1],
                            #[trigger] longer[i],
                        ) by {
                            if i < way.len() {
                                assert(leads_on(rep, anc, way[i - 1], way[i]));
                            }
                        }
                        assert(climbs(rep, anc, ra, rb, longer) && longer.last() == queue@[k]);
                    }
                }
                assert forall|k: int, x: int|
                    0 <= k < head + 1 && #[trigger] leads(
                        rep,
                        anc,
                        (#[trigger] queue@[k]) as int,
                        x,
                    ) && !bit(ms@, x) implies seen@[rep[x] as int] by {
                    assert(queue@[k] == was[k]);
                    lemma_leads_bound(rep, anc, queue@[k] as int, x);
                    if k < head {
                        assert(leads(rep, anc, was[k] as int, x));
                        assert(seen0[rep[x] as int]);
                    } else {
                        assert(bit(above@[c as int]@, x));
                    }
                }
                assert forall|k: int| 0 <= k < head + 1 implies !down@[(
                #[trigger] queue@[k]) as int] by {
                    assert(queue@[k] == was[k]);
                }
                assert forall|k: int| 0 <= k < queue@.len() implies rep[(
                #[trigger] queue@[k]) as int] == queue@[k] by {
                    if k < was.len() {
                        assert(queue@[k] == was[k]);
                    }
                }
                assert forall|x: int| #[trigger] bit(ma@, x) && !bit(
                    ms@,
                    x,
                ) implies seen@[rep[x] as int] by {
                    assert(seen0[rep[x] as int]);
                }
            }
            head += 1;
        }
        proof {
            if traps(rep, anc, desc, ra, rb) {
                let way = choose|way: Seq<usize>|
                    #[trigger] climbs(rep, anc, ra, rb, way) && enters(
                        rep,
                        desc,
                        ra,
                        rb,
                        way.last(),
                    );
                assert forall|x: int|
                    0 <= x < rep.len() && #[trigger] block_reaches(rep, anc, ra, rb, x)
                        && !in_block(rep, ra, rb, x) implies seen@[rep[x] as int] by {
                    assert(bit(ma@, x) && !bit(ms@, x));
                }
                assert forall|k: int, x: int|
                    0 <= k < queue@.len() && 0 <= x < rep.len() && #[trigger] leads(
                        rep,
                        anc,
                        (#[trigger] queue@[k]) as int,
                        x,
                    ) && !in_block(rep, ra, rb, x) implies seen@[rep[x] as int] by {
                    assert(!bit(ms@, x));
                }
                lemma_climb_seen(rep, anc, ra, rb, way, queue@, seen@, way.len() - 1);
                let c = way.last();
                let x = choose|x: int|
                    0 <= x < rep.len() && rep[x] == c && #[trigger] block_reaches(
                        rep,
                        desc,
                        ra,
                        rb,
                        x,
                    );
                assert(bit(md@, x));
                assert(!in_block(rep, ra, rb, x));
                assert(!bit(ms@, x));
                assert(down@[c as int]);
                let k = queue@.index_of(c);
                assert(queue@[k] == c);
            }
        }
        false
    }

    /// Considers the edge from `u` to `v`; returns whether it joined two blocks.
    fn consider(
        &mut self,
        u: usize,
        v: usize,
        w: usize,
        Ghost(supported): Ghost<Seq<bool>>,
        Ghost(anc): Ghost<Seq<Set<int>>>,
        Ghost(desc): Ghost<Seq<Set<int>>>,
    ) -> (r: bool)
        requires
            old(self).shape_ok(old(self).uf.rep@.len() as int, w as int),
            old(self).tables_ok(supported, anc, desc),
            u < old(self).uf.rep@.len(),
            v < old(self).uf.rep@.len(),
            supported[u as int],
            supported[v as int],
        ensures
            final(self).shape_ok(old(self).uf.rep@.len() as int, w as int),
            final(self).tables_ok(supported, anc, desc),
            final(self).uf.rep@ == fuse_step(old(self).uf.rep@, anc, desc, (u, v)),
            r ==> roots(final(self).uf.rep@, old(self).uf.rep@.len() as int) < roots(
                old(self).uf.rep@,
                old(self).uf.rep@.len() as int,
            ),
            !r ==> final(self).uf.rep@ == old(self).uf.rep@,
    {
        let ghost rep = self.uf.rep@;
        let ghost n = rep.len() as int;
        let ra: usize = self.uf.find(u);
        let rb: usize = self.uf.find(v);
        if ra == rb {
            return false;
        }
        let ms: Bits = union_bits(&self.members[ra], &self.members[rb]);
        let ma: Bits = union_bits(&self.above[ra], &self.above[rb]);
        let md: Bits = union_bits(&self.below[ra], &self.below[rb]);
        proof {
            assert forall|x: int| #[trigger] bit(ms@, x) == (0 <= x < n && in_block(rep, ra, rb, x)) by {
                assert(bit(ms@, x) == (bit(self.members@[ra as int]@, x) || bit(
                    self.members@[rb as int]@,
                    x,
                )));
                if 0 <= x < n && in_block(rep, ra, rb, x) && !supported[x] {
                    assert(rep[x] == x);
                }
            }
            assert forall|x: int| #[trigger] bit(ma@, x) == block_reaches(rep, anc, ra, rb, x) by {
                assert(bit(ma@, x) == (bit(self.above@[ra as int]@, x) || bit(
                    self.above@[rb as int]@,
                    x,
                )));
                lemma_block_leads(rep, anc, ra, rb, x);
            }
            assert forall|x: int| #[trigger] bit(md@, x) == block_reaches(rep, desc, ra, rb, x) by {
                assert(bit(md@, x) == (bit(self.below@[ra as int]@, x) || bit(
                    self.below@[rb as int]@,
                    x,
                )));
                lemma_block_leads(rep, desc, ra, rb, x);
            }
        }
        let blocked = self.straddled(
            ra,
            rb,
            (&ms, &ma, &md),
            w,
            Ghost(supported),
            Ghost(anc),
            Ghost(desc),
        );
        if blocked {
            return false;
        }
        let ghost was = *self;
        self.uf.join(ra, rb);
        self.members.set(ra, ms);
        self.above.set(ra, ma);
        self.below.set(ra, md);
        proof {
            let now = self.uf.rep@;
            lemma_merge_roots(rep, ra, rb, n);
            assert forall|r: int, x: int| 0 <= r < n && now[r] == r implies (#[trigger] bit(
                self.members@[r]@,
                x,
            ) == (0 <= x < n && supported[x] && now[x] == r)) by {
                assert(r != rb);
                if r != ra {
                    assert(bit(was.members@[r]@, x) == (0 <= x < n && supported[x] && rep[x] == r));
                } else {
                    assert(bit(ms@, x) == (0 <= x < n && in_block(rep, ra, rb, x)));
                    if 0 <= x < n && in_block(rep, ra, rb, x) && !supported[x] {
                        assert(rep[x] == x);
                    }
                }
            }
            assert forall|r: int, x: int| 0 <= r < n && now[r] == r implies (#[trigger] bit(
                self.above@[r]@,
                x,
            ) == leads(now, anc, r, x)) by {
                assert(r != rb);
                lemma_merged_leads(rep, anc, ra, rb, r, x);
                if r != ra {
                    assert(bit(was.above@[r]@, x) == leads(rep, anc, r, x));
                }
            }
            assert forall|r: int, x: int| 0 <= r < n && now[r] == r implies (#[trigger] bit(
                self.below@[r]@,
                x,
            ) == leads(now, desc, r, x)) by {
                assert(r != rb);
                lemma_merged_leads(rep, desc, ra, rb, r, x);
                if r != ra {
                    assert(bit(was.below@[r]@, x) == leads(rep, desc, r, x));
                }
            }
            assert forall|x: int| 0 <= x < n implies (if supported[x] {
                supported[now[x] as int]
            } else {
                (#[trigger] now[x]) == x
            }) by {
                assert(if supported[x] {
                    supported[rep[x] as int]
                } else {
                    rep[x] == x
                });
            }
        }
        true
    }
}

proof fn lemma_block_leads(rep: Seq<usize>, rel: Seq<Set<int>>, ra: usize, rb: usize, x: int)
    ensures
        block_reaches(rep, rel, ra, rb, x) == (leads(rep, rel, ra as int, x) || leads(
            rep,
            rel,
            rb as int,
            x,
        )),
{
    if block_reaches(rep, rel, ra, rb, x) {
        let m = choose|m: int|
            0 <= m < rep.len() && in_block(rep, ra, rb, m) && (#[trigger] rel[m]).contains(x);
        assert(rel[m].contains(x));
    }
    if leads(rep, rel, ra as int, x) {
        let m = choose|m: int|
            0 <= m < rep.len() && rep[m] == ra as int && (#[trigger] rel[m]).contains(x);
        assert(in_block(rep, ra, rb, m) && rel[m].contains(x));
    }
    if leads(rep, rel, rb as int, x) {
        let m = choose|m: int|
            0 <= m < rep.len() && rep[m] == rb as int && (#[trigger] rel[m]).contains(x);
        assert(in_block(rep, ra, rb, m) && rel[m].contains(x));
    }
}

proof fn lemma_merged_leads(
    rep: Seq<usize>,
    rel: Seq<Set<int>>,
    ra: usize,
    rb: usize,
    r: int,
    x: int,
)
    requires
        ra != rb,
        r != rb,
    ensures
        leads(merged(rep, ra, rb), rel, r, x) == if r == ra {
            block_reaches(rep, rel, ra, rb, x)
        } else {
            leads(rep, rel, r, x)
        },
{
    let now = merged(rep, ra, rb);
    if leads(now, rel, r, x) {
        let m = choose|m: int|
            0 <= m < now.len() && now[m] == r && (#[trigger] rel[m]).contains(x);
        assert(rel[m].contains(x));
        assert(r == ra ==> in_block(rep, ra, rb, m));
    }
    if r == ra && block_reaches(rep, rel, ra, rb, x) {
        let m = choose|m: int|
            0 <= m < rep.len() && in_block(rep, ra, rb, m) && (#[trigger] rel[m]).contains(x);
        assert(now[m] == r && rel[m].contains(x));
    }
    if r != ra && leads(rep, rel, r, x) {
        let m = choose|m: int|
            0 <= m < rep.len() && rep[m] == r && (#[trigger] rel[m]).contains(x);
        assert(now[m] == r && rel[m].contains(x));
    }
}

/// The groups of supported nodes, by representative, each in ascending order.
fn collect_groups(uf: &mut Uf, supported: &[bool]) -> (r: Vec<Vec<usize>>)
    requires
        old(uf).wf(),
        old(uf).rep@.len() == supported@.len(),
    ensures
        lists(r@) == groups_below(old(uf).rep@, supported@, supported@.len() as int),
{
    let n: usize = supported.len();
    let ghost rep = uf.rep@;
    let mut buckets: Vec<Vec<usize>> = empty_lists(n);
    let mut i: usize = 0;
    while i < n
        invariant
            n == supported@.len(),
            n == rep.len(),
            i <= n,
            uf.wf(),
            uf.rep@ == rep,
            buckets@.len() == n,
            forall|r: int|
                0 <= r < n ==> (#[trigger] buckets@[r])@ == members(rep, supported@, r, i as int),
        decreases n - i,
    {
        if supported[i] {
            let r: usize = uf.find(i);
            let ghost was = buckets@;
            buckets[r].push(i);
            assert forall|q: int| 0 <= q < n implies (#[trigger] buckets@[q])@ == members(
                rep,
                supported@,
                q,
                i + 1,
            ) by {
                assert(was[q]@ == members(rep, supported@, q, i as int));
            }
        }
        i += 1;
    }
    let mut out: Vec<Vec<usize>> = Vec::new();
    let mut r: usize = 0;
    while r < n
        invariant
            n == supported@.len(),
            n == rep.len(),
            r <= n,
            buckets@.len() == n,
            forall|q: int|
                0 <= q < n ==> (#[trigger] buckets@[q])@ == members(rep, supported@, q, n as int),
            lists(out@) == groups_below(rep, supported@, r as int),
        decreases n - r,
    {
        if buckets[r].len() > 0 {
            let g: Vec<usize> = buckets[r].clone();
            assert(g@ =~= buckets@[r as int]@);
            let ghost was = out@;
            out.push(g);
            assert(lists(out@) =~= lists(was).push(g@));
        }
        r += 1;
    }
    out
}

/// Groups the supported nodes into blocks that can each run as one.
///
/// `node_inputs` and `node_outputs` name the values of each node, and `supported` tells
/// which nodes may be fused. Every supported node is in exactly one group; the members of
/// a group are in index order.
pub fn convex_groups(
    num_nodes: usize,
    node_inputs: &[Vec<String>],
    node_outputs: &[Vec<String>],
    supported: &[bool],
) -> (r: Vec<Vec<usize>>)
    requires
        node_inputs@.len() == num_nodes,
        node_outputs@.len() == num_nodes,
        supported@.len() == num_nodes,
        num_nodes + 63 <= usize::MAX,
        no_self_edge(predecessors_of(name_lists(node_inputs@), name_lists(node_outputs@))),
    ensures
        is_fusion(
            lists(r@),
            predecessors_of(name_lists(node_inputs@), name_lists(node_outputs@)),
            supported@,
        ),
{
    let producer = producers(node_outputs);
    let ghost outs = name_lists(node_outputs@);
    let preds = predecessors(node_inputs, &producer, Ghost(outs));
    let ghost ps = lists(preds@);
    let ghost adj = adjacency(ps);
    proof {
        lemma_loop_free(name_lists(node_inputs@), outs);
    }
    let succs = successors(&preds);
    let edges = edges_of(&preds, supported);
    let (order, Ghost(settled_nodes)) = topological_order(&preds, &succs);
    let w: usize = words(num_nodes);
    assert(all_below(order@, num_nodes as int));
    let anc = sweep(&order, &preds, w);
    let mut reversed: Vec<usize> = Vec::new();
    let mut i: usize = num_nodes;
    assert(order@.reverse().take(0) =~= reversed@);
    while i > 0
        invariant
            i <= num_nodes,
            order@.len() == num_nodes,
            all_below(order@, num_nodes as int),
            reversed@ == order@.reverse().take(num_nodes - i),
        decreases i,
    {
        reversed.push(order[i - 1]);
        proof {
            assert(order@.reverse().take(num_nodes - i + 1) =~= order@.reverse().take(
                num_nodes - i,
            ).push(order@[i - 1]));
        }
        i -= 1;
    }
    assert(reversed@ =~= order@.reverse());
    assert(all_below(reversed@, num_nodes as int)) by {
        assert forall|q: int| 0 <= q < reversed@.len() implies (#[trigger] reversed@[q]) < num_nodes by {
            assert(reversed@[q] == order@[num_nodes - 1 - q]);
        }
    }
    let desc = sweep(&reversed, &succs, w);
    let ghost anc_sets = sets_of(anc@);
    let ghost desc_sets = sets_of(desc@);
    let mut members: Vec<Bits> = empty_sets(num_nodes, w);
    let mut i: usize = 0;
    while i < num_nodes
        invariant
            num_nodes == supported@.len(),
            i <= num_nodes,
            num_nodes <= 64 * w,
            members@.len() == num_nodes,
            forall|q: int| 0 <= q < num_nodes ==> (#[trigger] members@[q])@.len() == w,
            forall|q: int, x: int|
                0 <= q < num_nodes ==> (#[trigger] bit(members@[q]@, x) == (q < i && x == q
                    && supported@[q])),
        decreases num_nodes - i,
    {
        if supported[i] {
            let ghost was = members@;
            set_bit(&mut members[i], i);
            assert forall|q: int, x: int| 0 <= q < num_nodes implies (#[trigger] bit(members@[q]@, x)
                == (q < i + 1 && x == q && supported@[q])) by {
                assert(bit(was[q]@, x) == (q < i && x == q && supported@[q]));
            }
        }
        i += 1;
    }
    let mut state = Fusion { uf: Uf::new(num_nodes), members, above: anc, below: desc };
    let ghost start = state.uf.rep@;
    proof {
        let n = num_nodes as int;
        assert forall|r: int, x: int| 0 <= r < n && start[r] == r implies (#[trigger] bit(
            state.above@[r]@,
            x,
        ) == leads(start, anc_sets, r, x)) by {
            assert(anc_sets[r].contains(x) == bit(state.above@[r]@, x));
            if leads(start, anc_sets, r, x) {
                let m = choose|m: int|
                    0 <= m < start.len() && start[m] == r && (#[trigger] anc_sets[m]).contains(x);
                assert(m == r);
            }
        }
        assert forall|r: int, x: int| 0 <= r < n && start[r] == r implies (#[trigger] bit(
            state.below@[r]@,
            x,
        ) == leads(start, desc_sets, r, x)) by {
            assert(desc_sets[r].contains(x) == bit(state.below@[r]@, x));
            if leads(start, desc_sets, r, x) {
                let m = choose|m: int|
                    0 <= m < start.len() && start[m] == r && (#[trigger] desc_sets[m]).contains(x);
                assert(m == r);
            }
        }
        assert forall|m: int, x: int| 0 <= m < n && #[trigger] anc_sets[m].contains(x) implies 0 <= x
            < n by {
            assert(bit(anc@[m]@, x));
        }
        assert forall|m: int, x: int| 0 <= m < n && #[trigger] desc_sets[m].contains(x) implies 0
            <= x < n by {
            assert(bit(desc@[m]@, x));
        }
        assert(state.shape_ok(n, w as int));
        assert(state.tables_ok(supported@, anc_sets, desc_sets));
    }
    let ghost mut p: nat = 0;
    let mut changed = true;
    let len: usize = edges.len();
    while changed
        invariant
            num_nodes == supported@.len(),
            len == edges@.len(),
            edges@ == fusable_edges(ps, supported@),
            ps.len() == num_nodes,
            forall|i: int|
                0 <= i < edges@.len() ==> (#[trigger] edges@[i]).0 < num_nodes && edges@[i].1
                    < num_nodes && supported@[edges@[i].0 as int] && supported@[edges@[i].1 as int],
            state.shape_ok(num_nodes as int, w as int),
            state.tables_ok(supported@, anc_sets, desc_sets),
            state.uf.rep@ == fuse_passes(num_nodes as nat, anc_sets, desc_sets, edges@, p),
            !changed ==> fuse_pass(state.uf.rep@, anc_sets, desc_sets, edges@) == state.uf.rep@,
        decreases
                roots(state.uf.rep@, num_nodes as int) + if changed {
                    1nat
                } else {
                    0nat
                },
    {
        changed = false;
        let ghost rep0 = state.uf.rep@;
        let mut i: usize = 0;
        assert(edges@.take(0) =~= Seq::empty());
        while i < len
            invariant
                num_nodes == supported@.len(),
                len == edges@.len(),
                i <= len,
                forall|i: int|
                    0 <= i < edges@.len() ==> (#[trigger] edges@[i]).0 < num_nodes && edges@[i].1
                        < num_nodes && supported@[edges@[i].0 as int]
                        && supported@[edges@[i].1 as int],
                state.shape_ok(num_nodes as int, w as int),
                state.tables_ok(supported@, anc_sets, desc_sets),
                state.uf.rep@ == fuse_pass(rep0, anc_sets, desc_sets, edges@.take(i as int)),
                changed ==> roots(state.uf.rep@, num_nodes as int) < roots(rep0, num_nodes as int),
                !changed ==> state.uf.rep@ == rep0,
            decreases len - i,
        {
            let e: (usize, usize) = edges[i];
            assert(edges@.take(i + 1).drop_last() =~= edges@.take(i as int));
            let joined = state.consider(
                e.0,
                e.1,
                w,
                Ghost(supported@),
                Ghost(anc_sets),
                Ghost(desc_sets),
            );
            if joined {
                changed = true;
            }
            i += 1;
        }
        assert(edges@.take(len as int) =~= edges@);
        proof {
            p = p + 1;
        }
    }
    let ghost rep = state.uf.rep@;
    let groups = collect_groups(&mut state.uf, supported);
    proof {
        assert(rests_at(rep, ps, supported@, order@, settled_nodes, p));
        assert(lists(groups@) == groups_below(rep, supported@, rep.len() as int));
    }
    groups
}

} // verus!
