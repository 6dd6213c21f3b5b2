//! What a graph needs that is not implemented.

use crate::graph::NodeIr;
use crate::interp::support::{implemented_node, is_implemented_node};
use crate::text;
use crate::text::{decimal_digits, law_sorts_total, law_sorts_transitive, sorts_before};
use vstd::prelude::*;

verus! {

/// Whether node `i` has the operator `op` and cannot be run.
pub open spec fn lacks(nodes: Seq<NodeIr>, i: int, op: Seq<char>) -> bool {
    nodes[i].op@ == op && !implemented_node(nodes[i])
}

/// How many of the first `k` nodes have the operator `op` and cannot be run.
pub open spec fn lacking(nodes: Seq<NodeIr>, op: Seq<char>, k: int) -> nat
    decreases k,
{
    if k <= 0 {
        0
    } else if lacks(nodes, k - 1, op) {
        lacking(nodes, op, k - 1) + 1
    } else {
        lacking(nodes, op, k - 1)
    }
}

/// How many of the first `k` nodes cannot be run.
pub open spec fn lacking_all(nodes: Seq<NodeIr>, k: int) -> nat
    decreases k,
{
    if k <= 0 {
        0
    } else if !implemented_node(nodes[k - 1]) {
        lacking_all(nodes, k - 1) + 1
    } else {
        lacking_all(nodes, k - 1)
    }
}

/// An operator that is not implemented: how many nodes have it, and the name of the first.
#[derive(Debug, PartialEq)]
pub struct Lack {
    pub op: String,
    pub count: usize,
    pub first: String,
}

/// Whether the entry says what holds of its operator among the nodes.
pub open spec fn told(nodes: Seq<NodeIr>, e: Lack) -> bool {
    &&& e.count == lacking(nodes, e.op@, nodes.len() as int)
    &&& exists|i: int|
        0 <= i < nodes.len() && #[trigger] lacks(nodes, i, e.op@) && e.first@ == nodes[i].name@ && (
        forall|j: int| 0 <= j < i ==> !#[trigger] lacks(nodes, j, e.op@))
}

/// Whether the operator `op` has an entry.
pub open spec fn listed(es: Seq<Lack>, op: Seq<char>) -> bool {
    exists|i: int| 0 <= i < es.len() && (#[trigger] es[i]).op@ == op
}

/// Whether the entries are in the order of their operators, none of which occurs twice.
pub open spec fn in_order(es: Seq<Lack>) -> bool {
    forall|i: int, j: int|
        0 <= i < j < es.len() ==> sorts_before((#[trigger] es[i]).op@, (#[trigger] es[j]).op@)
}

/// Whether the entries are those of the nodes that cannot be run.
pub open spec fn reports(nodes: Seq<NodeIr>, es: Seq<Lack>) -> bool {
    &&& in_order(es)
    &&& forall|i: int| 0 <= i < es.len() ==> told(nodes, #[trigger] es[i])
    &&& forall|i: int|
        0 <= i < nodes.len() && !implemented_node(#[trigger] nodes[i]) ==> listed(es, nodes[i].op@)
}

/// The text of an entry.
pub open spec fn entry_text(e: Lack) -> Seq<char> {
    e.op@ + " \u{d7}"@ + decimal_digits(e.count as nat) + " (e.g. '"@ + e.first@ + "')"@
}

/// The texts of the first `k` entries, with commas in between.
pub open spec fn entries_text(es: Seq<Lack>, k: int) -> Seq<char>
    decreases k,
{
    if k <= 0 {
        Seq::empty()
    } else if k == 1 {
        entry_text(es[0])
    } else {
        entries_text(es, k - 1) + ", "@ + entry_text(es[k - 1])
    }
}

/// The text of a report on the nodes.
pub open spec fn report_text(nodes: Seq<NodeIr>, es: Seq<Lack>) -> Seq<char> {
    decimal_digits(lacking_all(nodes, nodes.len() as int)) + " nodes of "@ + decimal_digits(
        es.len(),
    ) + " types are not implemented: "@ + entries_text(es, es.len() as int)
}

fn count_lacking(nodes: &Vec<NodeIr>, op: &str) -> (r: usize)
    ensures
        r == lacking(nodes@, op@, nodes@.len() as int),
{
    let n: usize = nodes.len();
    let mut r: usize = 0;
    let mut i: usize = 0;
    while i < n
        invariant
            i <= n,
            n == nodes@.len(),
            r <= i,
            r == lacking(nodes@, op@, i as int),
        decreases n - i,
    {
        if text::same(nodes[i].op.as_str(), op) && !is_implemented_node(&nodes[i]) {
            r += 1;
        }
        i += 1;
    }
    r
}

fn count_all(nodes: &Vec<NodeIr>) -> (r: usize)
    ensures
        r == lacking_all(nodes@, nodes@.len() as int),
{
    let n: usize = nodes.len();
    let mut r: usize = 0;
    let mut i: usize = 0;
    while i < n
        invariant
            i <= n,
            n == nodes@.len(),
            r <= i,
            r == lacking_all(nodes@, i as int),
        decreases n - i,
    {
        if !is_implemented_node(&nodes[i]) {
            r += 1;
        }
        i += 1;
    }
    r
}

/// Where an entry for `op` goes, unless it has one.
fn place_for(es: &Vec<Lack>, op: &str) -> (r: Option<usize>)
    requires
        in_order(es@),
    ensures
        match r {
            None => listed(es@, op@),
            Some(p) => {
                &&& p <= es@.len()
                &&& !listed(es@, op@)
                &&& forall|i: int| 0 <= i < p ==> sorts_before((#[trigger] es@[i]).op@, op@)
                &&& forall|i: int| p <= i < es@.len() ==> sorts_before(op@, (#[trigger] es@[i]).op@)
            },
        },
{
    let n: usize = es.len();
    let mut p: usize = 0;
    while p < n
        invariant
            p <= n,
            n == es@.len(),
            in_order(es@),
            forall|i: int| 0 <= i < p ==> sorts_before((#[trigger] es@[i]).op@, op@),
        decreases n - p,
    {
        if text::same(es[p].op.as_str(), op) {
            assert(es@[p as int].op@ == op@);
            return None;
        }
        if text::before(op, es[p].op.as_str()) {
            proof {
                let o = op@;
                assert forall|i: int| p <= i < es@.len() implies sorts_before(
                    o,
                    (#[trigger] es@[i]).op@,
                ) by {
                    if i > p {
                        law_sorts_transitive(o, es@[p as int].op@, es@[i].op@);
                    }
                }
                lemma_unlisted(es@, o, p as int);
            }
            return Some(p);
        }
        proof {
            law_sorts_total(es@[p as int].op@, op@);
        }
        p += 1;
    }
    proof {
        lemma_unlisted(es@, op@, n as int);
    }
    Some(n)
}

proof fn lemma_unlisted(es: Seq<Lack>, op: Seq<char>, p: int)
    requires
        0 <= p <= es.len(),
        forall|i: int| 0 <= i < p ==> sorts_before((#[trigger] es[i]).op@, op),
        forall|i: int| p <= i < es.len() ==> sorts_before(op, (#[trigger] es[i]).op@),
    ensures
        !listed(es, op),
{
    text::law_sorts_strict(op);
}

/// The operators that are not implemented, by name.
pub fn unsupported(nodes: &Vec<NodeIr>) -> (r: Vec<Lack>)
    ensures
        reports(nodes@, r@),
{
    let n: usize = nodes.len();
    let mut es: Vec<Lack> = Vec::new();
    let mut k: usize = 0;
    while k < n
        invariant
            k <= n,
            n == nodes@.len(),
            in_order(es@),
            forall|i: int| 0 <= i < es@.len() ==> told(nodes@, #[trigger] es@[i]),
            forall|i: int|
                0 <= i < k && !implemented_node(#[trigger] nodes@[i]) ==> listed(
                    es@,
                    nodes@[i].op@,
                ),
        decreases n - k,
    {
        if !is_implemented_node(&nodes[k]) {
            match place_for(&es, nodes[k].op.as_str()) {
                None => {},
                Some(p) => {
                    let e = Lack {
                        op: nodes[k].op.clone(),
                        count: count_lacking(nodes, nodes[k].op.as_str()),
                        first: nodes[k].name.clone(),
                    };
                    let ghost was = es@;
                    proof {
                        let op = nodes@[k as int].op@;
                        assert(lacks(nodes@, k as int, op));
                        assert forall|j: int| 0 <= j < k implies !#[trigger] lacks(
                            nodes@,
                            j,
                            op,
                        ) by {
                            if lacks(nodes@, j, op) {
                                assert(listed(was, nodes@[j].op@));
                            }
                        }
                        assert(told(nodes@, e));
                    }
                    es.insert(p, e);
                    proof {
                        assert(es@ == was.insert(p as int, e));
                        assert forall|i: int, j: int| 0 <= i < j < es@.len() implies sorts_before(
                            (#[trigger] es@[i]).op@,
                            (#[trigger] es@[j]).op@,
                        ) by {
                            let a = if i < p {
                                i
                            } else {
                                i - 1
                            };
                            let b = if j < p {
                                j
                            } else {
                                j - 1
                            };
                            if i != p {
                                assert(es@[i] == was[a]);
                            }
                            if j != p {
                                assert(es@[j] == was[b]);
                            }
                        }
                        assert forall|i: int| 0 <= i < es@.len() implies told(
                            nodes@,
                            #[trigger] es@[i],
                        ) by {
                            if i < p {
                                assert(es@[i] == was[i]);
                            } else if i > p {
                                assert(es@[i] == was[i - 1]);
                            }
                        }
                        assert forall|i: int|
                            0 <= i < k + 1 && !implemented_node(#[trigger] nodes@[i]) implies listed(
                            es@,
                            nodes@[i].op@,
                        ) by {
                            if i == k {
                                assert(es@[p as int].op@ == nodes@[i].op@);
                            } else {
                                assert(listed(was, nodes@[i].op@));
                                let q = choose|q: int|
                                    0 <= q < was.len() && (#[trigger] was[q]).op@
                                        == nodes@[i].op@;
                                if q < p {
                                    assert(es@[q] == was[q]);
                                } else {
                                    assert(es@[q + 1] == was[q]);
                                }
                            }
                        }
                    }
                },
            }
        }
        k += 1;
    }
    es
}

fn entry(e: &Lack) -> (r: String)
    ensures
        r@ == entry_text(*e),
{
    let mut r = text::joined(e.op.as_str(), " \u{d7}");
    r.append(text::decimal(e.count as u64).as_str());
    r.append(" (e.g. '");
    r.append(e.first.as_str());
    r.append("')");
    r
}

/// The text of a report on the nodes.
pub fn report(nodes: &Vec<NodeIr>, es: &Vec<Lack>) -> (r: String)
    ensures
        r@ == report_text(nodes@, es@),
{
    let n: usize = es.len();
    let mut list = text::owned("");
    let mut i: usize = 0;
    proof {
        reveal_strlit("");
        assert(list@ =~= Seq::empty());
    }
    while i < n
        invariant
            i <= n,
            n == es@.len(),
            list@ == entries_text(es@, i as int),
        decreases n - i,
    {
        if i > 0 {
            list.append(", ");
        }
        let e = entry(&es[i]);
        let ghost was = list@;
        list.append(e.as_str());
        proof {
            if i == 0 {
                assert(list@ =~= e@);
            }
        }
        i += 1;
    }
    let mut r = text::decimal(count_all(nodes) as u64);
    r.append(" nodes of ");
    r.append(text::decimal(n as u64).as_str());
    r.append(" types are not implemented: ");
    r.append(list.as_str());
    r
}

/// **A report is about something**: there are entries exactly where a node cannot be run.
pub proof fn law_report_is_empty(nodes: Seq<NodeIr>, es: Seq<Lack>)
    requires
        reports(nodes, es),
    ensures
        es.len() == 0 <==> (forall|i: int|
            0 <= i < nodes.len() ==> implemented_node(#[trigger] nodes[i])),
{
    if es.len() > 0 {
        assert(told(nodes, es[0]));
        let i = choose|i: int|
            0 <= i < nodes.len() && #[trigger] lacks(nodes, i, es[0].op@) && es[0].first@
                == nodes[i].name@ && (forall|j: int|
                0 <= j < i ==> !#[trigger] lacks(nodes, j, es[0].op@));
        assert(!implemented_node(nodes[i]));
    }
}

} // verus!
