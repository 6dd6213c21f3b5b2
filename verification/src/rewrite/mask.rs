//! A mask that is constant, and its removal.
//!
//! `masked = lookup * (1 - Cast(a == b))` with constant `a` and `b` is `lookup` where they
//! differ, and zero where they are equal. Whoever reads `masked` then reads `lookup`, or a
//! constant of zeros.

use crate::bytes::zeros;
use crate::floats::ONE;
use crate::graph::{tensor_under, GraphIr, InitializerIr, NodeIr, TensorView};
use crate::host_ops::FLOAT;
use crate::rewrite::fold::count_set;
use crate::rewrite::layernorm::{first_output, input_at};
use crate::rewrite::slices::{adds_front_axis, unsqueeze_axes};
use crate::rewrite::{
    attr_int, const_of, constant, consumers, consumers_of, escapes, int64_const_of,
    int64_constant, int_attr_of, is_seen, no_nodes, nothing, only_consumer,
    producer, producer_in, rebuild, rebuilt, scalar_f32, scalar_f32_of, sole_consumer,
};
use crate::text;
use crate::text::texts;
use vstd::prelude::*;

verus! {

/// Whether `name` compares two constants, and if so whether they are equal.
pub open spec fn constant_equality(ir: GraphIr, name: Seq<char>) -> Option<bool> {
    match producer_in(ir, name) {
        None => None,
        Some(i) => {
            let node = ir.nodes@[i as int];
            if !node.is_op("Equal"@) || node.outputs@.len() != 1 || node.inputs@.len() != 2 {
                None
            } else {
                match (
                    int64_const_of(ir, node.input_name(0)),
                    int64_const_of(ir, node.input_name(1)),
                ) {
                    (Some(a), Some(b)) => if a.len() == 1 && b.len() == 1 {
                        Some(a[0] == b[0])
                    } else {
                        None
                    },
                    _ => None,
                }
            }
        },
    }
}

/// Whether `name` compares two constants, and if so whether they are equal.
fn const_is_first(ir: &GraphIr, name: &str) -> (r: Option<bool>)
    ensures
        r == constant_equality(*ir, name@),
{
    match producer(ir, name) {
        None => None,
        Some(i) => {
            let node: &NodeIr = &ir.nodes[i];
            if !node.is_standard("Equal") || node.outputs.len() != 1 || node.inputs.len() != 2 {
                return None;
            }
            match (
                int64_constant(ir, node.inputs[0].as_str()),
                int64_constant(ir, node.inputs[1].as_str()),
            ) {
                (Some(a), Some(b)) => if a.len() == 1 && b.len() == 1 {
                    Some(a[0] == b[0])
                } else {
                    None
                },
                _ => None,
            }
        },
    }
}

/// The last dimension of a constant single-precision tensor.
pub open spec fn table_width(ir: GraphIr, name: Seq<char>, rank: int) -> Option<i64> {
    match const_of(ir, name) {
        Some(t) => if t.dtype == FLOAT && t.shape.len() >= rank && t.shape.len() > 0 {
            Some(t.shape.last())
        } else {
            None
        },
        None => None,
    }
}

/// Whether `name` is a constant single-precision tensor.
pub open spec fn is_table(ir: GraphIr, name: Seq<char>) -> bool {
    match const_of(ir, name) {
        Some(t) => t.dtype == FLOAT,
        None => false,
    }
}

/// Whether the node gathers with two inputs.
pub open spec fn is_lookup(node: NodeIr) -> bool {
    node.is_op("Gather"@) && node.inputs@.len() == 2
}

/// The last dimension of the constant table that a lookup reads from: directly, or from one
/// slice of a stack of tables.
pub open spec fn lookup_width(ir: GraphIr, name: Seq<char>) -> Option<i64> {
    match producer_in(ir, name) {
        None => None,
        Some(i) => {
            let g = ir.nodes@[i as int];
            if !is_lookup(g) {
                None
            } else if is_table(ir, g.input_name(0)) {
                table_width(ir, g.input_name(0), 0)
            } else {
                match producer_in(ir, g.input_name(0)) {
                    None => None,
                    Some(j) => {
                        let inner = ir.nodes@[j as int];
                        if is_lookup(inner) {
                            table_width(ir, inner.input_name(0), 2)
                        } else {
                            None
                        }
                    },
                }
            }
        },
    }
}

fn width_of(ir: &GraphIr, name: &str, rank: usize) -> (r: Option<i64>)
    ensures
        r == table_width(*ir, name@, rank as int),
{
    match constant(ir, name) {
        Some(t) => {
            let n: usize = t.shape.len();
            if t.dtype == FLOAT && n >= rank && n > 0 {
                assert(t@.shape.last() == t@.shape[n - 1]);
                Some(t.shape[n - 1])
            } else {
                None
            }
        },
        None => None,
    }
}

/// The last dimension of the constant table that a lookup reads from.
fn lookup_table_last_dim(ir: &GraphIr, name: &str) -> (r: Option<i64>)
    ensures
        r == lookup_width(*ir, name@),
{
    match producer(ir, name) {
        None => None,
        Some(i) => {
            let g: &NodeIr = &ir.nodes[i];
            if !g.is_standard("Gather") || g.inputs.len() != 2 {
                return None;
            }
            let direct = match constant(ir, g.inputs[0].as_str()) {
                Some(t) => t.dtype == FLOAT,
                None => false,
            };
            if direct {
                return width_of(ir, g.inputs[0].as_str(), 0);
            }
            match producer(ir, g.inputs[0].as_str()) {
                None => None,
                Some(j) => {
                    let inner: &NodeIr = &ir.nodes[j];
                    if !inner.is_standard("Gather") || inner.inputs.len() != 2 {
                        return None;
                    }
                    width_of(ir, inner.inputs[0].as_str(), 2)
                },
            }
        },
    }
}

// --- the pattern ------------------------------------------------------------------------

/// The nodes that form the mask, and the name of what is masked.
pub struct Chain {
    pub unsqueeze: usize,
    pub sum: usize,
    pub neg: usize,
    pub cast: usize,
    pub first: bool,
}

/// The `Unsqueeze` among the operands of the product at `i`, and the place of the other.
pub open spec fn mask_operand(ir: GraphIr, node: NodeIr) -> Option<(usize, int)> {
    match producer_in(ir, node.input_name(0)) {
        Some(c) if ir.nodes@[c as int].is_op("Unsqueeze"@) => Some((c, 1)),
        _ => match producer_in(ir, node.input_name(1)) {
            Some(c) if ir.nodes@[c as int].is_op("Unsqueeze"@) => Some((c, 0)),
            _ => None,
        },
    }
}

/// The operand of a sum whose other operand is the constant one.
pub open spec fn beside_one(ir: GraphIr, node: NodeIr) -> Option<Seq<char>> {
    if scalar_f32_of(ir, node.input_name(0)) == Some(ONE) {
        Some(node.input_name(1))
    } else if scalar_f32_of(ir, node.input_name(1)) == Some(ONE) {
        Some(node.input_name(0))
    } else {
        None
    }
}

/// Whether the node is `op` with `n` inputs and one output.
pub open spec fn is_link(node: NodeIr, op: Seq<char>, n: nat) -> bool {
    node.is_op(op) && node.outputs@.len() == 1 && node.inputs@.len() == n
}

fn check_link(node: &NodeIr, op: &str, n: usize) -> (r: bool)
    ensures
        r == is_link(*node, op@, n as nat),
{
    node.is_standard(op) && node.outputs.len() == 1 && node.inputs.len() == n
}

/// The chain that forms the mask behind the `Unsqueeze` at `u`.
pub open spec fn chain_at(ir: GraphIr, u: usize) -> Option<Chain> {
    let unsqueeze = ir.nodes@[u as int];
    if unsqueeze.outputs@.len() != 1 || unsqueeze_axes(ir, unsqueeze) != Some(seq![0i64]) {
        None
    } else {
        match producer_in(ir, unsqueeze.input_name(0)) {
            None => None,
            Some(sum) => if !is_link(ir.nodes@[sum as int], "Add"@, 2) {
                None
            } else {
                match beside_one(ir, ir.nodes@[sum as int]) {
                    None => None,
                    Some(source) => match producer_in(ir, source) {
                        None => None,
                        Some(neg) => if !is_link(ir.nodes@[neg as int], "Neg"@, 1) {
                            None
                        } else {
                            match producer_in(ir, ir.nodes@[neg as int].input_name(0)) {
                                None => None,
                                Some(cast) => {
                                    let c = ir.nodes@[cast as int];
                                    match constant_equality(ir, c.input_name(0)) {
                                        Some(first) if is_link(c, "Cast"@, 1) && int_attr_of(
                                            c,
                                            "to"@,
                                        ) == Some(1i64) => Some(
                                            Chain { unsqueeze: u, sum, neg, cast, first },
                                        ),
                                        _ => None,
                                    }
                                },
                            }
                        },
                    },
                }
            },
        }
    }
}

/// Whether each link is read by the next alone, and the last by node `i`.
pub open spec fn is_exclusive(ir: GraphIr, c: Chain, i: int) -> bool {
    let nodes = ir.nodes@;
    &&& sole_consumer(ir, nodes[c.cast as int].output_name(0)) == Some(c.neg)
    &&& sole_consumer(ir, nodes[c.neg as int].output_name(0)) == Some(c.sum)
    &&& sole_consumer(ir, nodes[c.sum as int].output_name(0)) == Some(c.unsqueeze)
    &&& sole_consumer(ir, nodes[c.unsqueeze as int].output_name(0)) == Some(i as usize)
}

/// A mask that can be removed: its chain, the comparison where it goes too, which operand is
/// masked, and how many zeros there are where it is masked away.
pub struct Mask {
    pub chain: Chain,
    pub equal: Option<usize>,
    pub operand: int,
    pub width: Option<i64>,
}

/// The name of the zeros that stand for a value masked away.
pub open spec fn zeros_name(masked: Seq<char>) -> Seq<char> {
    masked + "__zeros"@
}

/// The comparison behind the chain, where nobody else reads it.
pub open spec fn comparison_of(ir: GraphIr, c: Chain) -> Option<usize> {
    let name = ir.nodes@[c.cast as int].input_name(0);
    match producer_in(ir, name) {
        Some(e) if sole_consumer(ir, name) == Some(c.cast) && ir.nodes@[e as int].outputs@.len()
            == 1 => Some(e),
        _ => None,
    }
}

/// The mask of the product at `i`, where it is constant and can be removed.
pub open spec fn mask_at(ir: GraphIr, i: int) -> Option<Mask> {
    let node = ir.nodes@[i];
    let masked = node.output_name(0);
    if !is_link(node, "Mul"@, 2) {
        None
    } else {
        match mask_operand(ir, node) {
            None => None,
            Some((u, other)) => match chain_at(ir, u) {
                None => None,
                Some(chain) => {
                    let lookup = node.input_name(other);
                    if !is_exclusive(ir, chain, i) || node.input_name(0) == node.input_name(1)
                        || escapes(ir, masked) || consumers_of(ir, masked).len() == 0 {
                        None
                    } else if !chain.first {
                        Some(
                            Mask {
                                chain,
                                equal: comparison_of(ir, chain),
                                operand: other,
                                width: None,
                            },
                        )
                    } else {
                        match lookup_width(ir, lookup) {
                            Some(d) => if 0 <= d && d * 4 <= usize::MAX {
                                Some(
                                    Mask {
                                        chain,
                                        equal: comparison_of(ir, chain),
                                        operand: other,
                                        width: Some(d),
                                    },
                                )
                            } else {
                                None
                            },
                            None => None,
                        }
                    }
                },
            },
        }
    }
}

fn find_chain(ir: &GraphIr, u: usize) -> (r: Option<Chain>)
    requires
        u < ir.nodes@.len(),
    ensures
        r == chain_at(*ir, u),
        r matches Some(c) ==> c.unsqueeze < ir.nodes@.len() && c.sum < ir.nodes@.len() && c.neg
            < ir.nodes@.len() && c.cast < ir.nodes@.len(),
{
    let unsqueeze: &NodeIr = &ir.nodes[u];
    if unsqueeze.outputs.len() != 1 || !adds_front_axis(ir, unsqueeze) {
        return None;
    }
    let source = input_at(unsqueeze, 0);
    let sum: usize = match producer(ir, source.as_str()) {
        Some(s) => s,
        None => {
            return None;
        },
    };
    let s: &NodeIr = &ir.nodes[sum];
    if !check_link(s, "Add", 2) {
        return None;
    }
    let left = match scalar_f32(ir, s.inputs[0].as_str()) {
        Some(v) => v == ONE,
        None => false,
    };
    let right = match scalar_f32(ir, s.inputs[1].as_str()) {
        Some(v) => v == ONE,
        None => false,
    };
    let negated = if left {
        s.inputs[1].as_str()
    } else if right {
        s.inputs[0].as_str()
    } else {
        return None;
    };
    let neg: usize = match producer(ir, negated) {
        Some(i) => i,
        None => {
            return None;
        },
    };
    if !check_link(&ir.nodes[neg], "Neg", 1) {
        return None;
    }
    let cast: usize = match producer(ir, ir.nodes[neg].inputs[0].as_str()) {
        Some(i) => i,
        None => {
            return None;
        },
    };
    let c: &NodeIr = &ir.nodes[cast];
    let compared = input_at(c, 0);
    match const_is_first(ir, compared.as_str()) {
        Some(first) => {
            let to_float = match attr_int(c, "to") {
                Some(t) => t == 1,
                None => false,
            };
            if check_link(c, "Cast", 1) && to_float {
                Some(Chain { unsqueeze: u, sum, neg, cast, first })
            } else {
                None
            }
        },
        None => None,
    }
}

fn reads_alone(ir: &GraphIr, producer: usize, reader: usize) -> (r: bool)
    requires
        producer < ir.nodes@.len(),
    ensures
        r == (sole_consumer(*ir, ir.nodes@[producer as int].output_name(0)) == Some(reader)),
{
    let name = first_output(&ir.nodes[producer]);
    match only_consumer(ir, name.as_str()) {
        Some(c) => c == reader,
        None => false,
    }
}

/// A removable mask, in executable form.
struct Found {
    chain: Chain,
    equal: Option<usize>,
    operand: usize,
    width: Option<i64>,
}

fn find_mask(ir: &GraphIr, i: usize) -> (r: Option<Found>)
    requires
        i < ir.nodes@.len(),
    ensures
        match r {
            Some(f) => {
                &&& mask_at(*ir, i as int) == Some(
                    Mask {
                        chain: f.chain,
                        equal: f.equal,
                        operand: f.operand as int,
                        width: f.width,
                    },
                )
                &&& f.operand < 2
                &&& ir.nodes@[i as int].inputs@.len() == 2
                &&& f.chain.unsqueeze < ir.nodes@.len()
                &&& f.chain.sum < ir.nodes@.len()
                &&& f.chain.neg < ir.nodes@.len()
                &&& f.chain.cast < ir.nodes@.len()
                &&& f.equal matches Some(e) ==> e < ir.nodes@.len()
            },
            None => mask_at(*ir, i as int) is None,
        },
{
    let node: &NodeIr = &ir.nodes[i];
    if !check_link(node, "Mul", 2) {
        return None;
    }
    let masked = first_output(node);
    let p0 = producer(ir, node.inputs[0].as_str());
    let left = match p0 {
        Some(c) => ir.nodes[c].is_standard("Unsqueeze"),
        None => false,
    };
    let (u, operand): (usize, usize) = if left {
        match p0 {
            Some(c) => (c, 1),
            None => {
                return None;
            },
        }
    } else {
        match producer(ir, node.inputs[1].as_str()) {
            Some(c) => {
                if !ir.nodes[c].is_standard("Unsqueeze") {
                    return None;
                }
                (c, 0)
            },
            None => {
                return None;
            },
        }
    };
    let chain = match find_chain(ir, u) {
        Some(c) => c,
        None => {
            return None;
        },
    };
    if !reads_alone(ir, chain.cast, chain.neg) || !reads_alone(ir, chain.neg, chain.sum)
        || !reads_alone(ir, chain.sum, chain.unsqueeze) || !reads_alone(ir, chain.unsqueeze, i) {
        return None;
    }
    if text::same(node.inputs[0].as_str(), node.inputs[1].as_str()) || consumers(
        ir,
        masked.as_str(),
    ).len() == 0 || is_seen(ir, masked.as_str()) {
        return None;
    }
    let compared = input_at(&ir.nodes[chain.cast], 0);
    let alone = match only_consumer(ir, compared.as_str()) {
        Some(c) => c == chain.cast,
        None => false,
    };
    let equal = match producer(ir, compared.as_str()) {
        Some(e) => if alone && ir.nodes[e].outputs.len() == 1 {
            Some(e)
        } else {
            None
        },
        None => None,
    };
    if !chain.first {
        return Some(Found { chain, equal, operand, width: None });
    }
    match lookup_table_last_dim(ir, node.inputs[operand].as_str()) {
        Some(d) => {
            if d < 0 || d as u64 > (usize::MAX / 4) as u64 {
                return None;
            }
            Some(Found { chain, equal, operand, width: Some(d) })
        },
        None => None,
    }
}

// --- applying ---------------------------------------------------------------------------

/// The names that each node reads after the first `k` masks were removed.
pub open spec fn reads_after(ir: GraphIr, k: int) -> Seq<Seq<Seq<char>>>
    decreases k,
{
    if k <= 0 {
        ir.nodes@.map_values(|n: NodeIr| texts(n.inputs@))
    } else {
        let rest = reads_after(ir, k - 1);
        match mask_at(ir, k - 1) {
            Some(m) => {
                let masked = ir.nodes@[k - 1].output_name(0);
                substituted(
                    rest,
                    masked,
                    if m.width is Some {
                        zeros_name(masked)
                    } else {
                        rest[k - 1][m.operand]
                    },
                )
            },
            None => rest,
        }
    }
}

/// The names that each node reads once `instead` is read wherever `name` was.
pub open spec fn substituted(
    reads: Seq<Seq<Seq<char>>>,
    name: Seq<char>,
    instead: Seq<char>,
) -> Seq<Seq<Seq<char>>> {
    reads.map_values(
        |list: Seq<Seq<char>>|
            list.map_values(
                |q: Seq<char>|
                    if q == name {
                        instead
                    } else {
                        q
                    },
            ),
    )
}

/// Which nodes go with the first `k` masks.
pub open spec fn masked_nodes(ir: GraphIr, k: int) -> Seq<bool>
    decreases k,
{
    if k <= 0 {
        Seq::new(ir.nodes@.len(), |i: int| false)
    } else {
        let rest = masked_nodes(ir, k - 1);
        match mask_at(ir, k - 1) {
            Some(m) => {
                let s = rest.update(k - 1, true).update(m.chain.unsqueeze as int, true).update(
                    m.chain.sum as int,
                    true,
                ).update(m.chain.neg as int, true).update(m.chain.cast as int, true);
                match m.equal {
                    Some(e) => s.update(e as int, true),
                    None => s,
                }
            },
            None => rest,
        }
    }
}

/// The zeros that the first `k` masks leave behind, under their names.
pub open spec fn zero_constants(ir: GraphIr, k: int) -> Map<Seq<char>, TensorView>
    decreases k,
{
    if k <= 0 {
        Map::empty()
    } else {
        let rest = zero_constants(ir, k - 1);
        match mask_at(ir, k - 1) {
            Some(m) => match m.width {
                Some(d) => rest.insert(
                    zeros_name(ir.nodes@[k - 1].output_name(0)),
                    zero_row(d),
                ),
                None => rest,
            },
            None => rest,
        }
    }
}

/// A row of `d` zeros in single precision.
pub open spec fn zero_row(d: i64) -> TensorView {
    TensorView { dtype: FLOAT, shape: seq![1i64, d], data: zeros(d * 4) }
}

/// Which products lose their mask.
pub open spec fn has_mask(ir: GraphIr) -> Seq<bool> {
    Seq::new(ir.nodes@.len(), |i: int| mask_at(ir, i) is Some)
}

/// Whether `now` is `was` apart from the names it reads, which are `reads`.
pub open spec fn same_but_reads(now: NodeIr, was: NodeIr, reads: Seq<Seq<char>>) -> bool {
    &&& now.domain == was.domain
    &&& now.op == was.op
    &&& now.since_version == was.since_version
    &&& now.name == was.name
    &&& now.outputs == was.outputs
    &&& now.attrs == was.attrs
    &&& texts(now.inputs@) == reads
}

/// Whether the nodes are those of the graph, reading these names.
pub open spec fn nodes_read(
    now: Seq<NodeIr>,
    was: Seq<NodeIr>,
    reads: Seq<Seq<Seq<char>>>,
) -> bool {
    &&& now.len() == was.len()
    &&& reads.len() == was.len()
    &&& forall|i: int| 0 <= i < was.len() ==> same_but_reads(#[trigger] now[i], was[i], reads[i])
}

/// One change of what is read: the mask at `node` goes.
struct Repoint {
    node: usize,
    masked: String,
    operand: usize,
    zero: Option<String>,
}

/// The names that each node reads after the changes.
spec fn changed(reads: Seq<Seq<Seq<char>>>, list: Seq<Repoint>) -> Seq<Seq<Seq<char>>>
    decreases list.len(),
{
    if list.len() == 0 {
        reads
    } else {
        let rest = changed(reads, list.drop_last());
        let e = list.last();
        substituted(
            rest,
            e.masked@,
            match e.zero {
                Some(z) => z@,
                None => rest[e.node as int][e.operand as int],
            },
        )
    }
}

/// Whether the changes are within the nodes and what they read.
spec fn changes_ok(nodes: Seq<NodeIr>, list: Seq<Repoint>) -> bool {
    forall|k: int|
        0 <= k < list.len() ==> (#[trigger] list[k]).node < nodes.len() && list[k].operand
            < nodes[list[k].node as int].inputs@.len()
}

/// Lets every node that reads `name` read `instead`.
fn replace_reads(nodes: &mut Vec<NodeIr>, name: &str, instead: &String, Ghost(was): Ghost<
    Seq<NodeIr>,
>, Ghost(reads): Ghost<Seq<Seq<Seq<char>>>>)
    requires
        nodes_read(old(nodes)@, was, reads),
    ensures
        nodes_read(final(nodes)@, was, substituted(reads, name@, instead@)),
{
    let ghost to = substituted(reads, name@, instead@);
    let n: usize = nodes.len();
    let mut i: usize = 0;
    while i < n
        invariant
            i <= n,
            n == nodes@.len(),
            n == was.len(),
            reads.len() == n,
            to == substituted(reads, name@, instead@),
            forall|q: int| 0 <= q < i ==> same_but_reads(#[trigger] nodes@[q], was[q], to[q]),
            forall|q: int| i <= q < n ==> same_but_reads(#[trigger] nodes@[q], was[q], reads[q]),
        decreases n - i,
    {
        let ghost before = nodes@;
        let m: usize = nodes[i].inputs.len();
        let mut j: usize = 0;
        assert(same_but_reads(nodes@[i as int], was[i as int], reads[i as int]));
        while j < m
            invariant
                i < n,
                n == nodes@.len(),
                n == before.len(),
                n == was.len(),
                reads.len() == n,
                to == substituted(reads, name@, instead@),
                j <= m,
                m == nodes@[i as int].inputs@.len(),
                m == reads[i as int].len(),
                forall|q: int| 0 <= q < n && q != i ==> #[trigger] nodes@[q] == before[q],
                nodes@[i as int].domain == was[i as int].domain,
                nodes@[i as int].op == was[i as int].op,
                nodes@[i as int].since_version == was[i as int].since_version,
                nodes@[i as int].name == was[i as int].name,
                nodes@[i as int].outputs == was[i as int].outputs,
                nodes@[i as int].attrs == was[i as int].attrs,
                forall|p: int|
                    0 <= p < j ==> (#[trigger] nodes@[i as int].inputs@[p])@ == to[i as int][p],
                forall|p: int|
                    j <= p < m ==> (#[trigger] nodes@[i as int].inputs@[p])@ == reads[i as int][p],
            decreases m - j,
        {
            if text::same(nodes[i].inputs[j].as_str(), name) {
                let ghost was_in = nodes@[i as int].inputs@;
                nodes[i].inputs.set(j, instead.clone());
                assert(nodes@[i as int].inputs@ == was_in.update(j as int, *instead));
            }
            j += 1;
        }
        proof {
            assert(texts(nodes@[i as int].inputs@) =~= to[i as int]);
            assert forall|q: int| 0 <= q < i + 1 implies same_but_reads(
                #[trigger] nodes@[q],
                was[q],
                to[q],
            ) by {
                if q < i {
                    assert(nodes@[q] == before[q]);
                }
            }
            assert forall|q: int| i + 1 <= q < n implies same_but_reads(
                #[trigger] nodes@[q],
                was[q],
                reads[q],
            ) by {
                assert(nodes@[q] == before[q]);
            }
        }
        i += 1;
    }
}

/// A row of `d` zeros.
fn zero_initializer(d: i64) -> (r: InitializerIr)
    requires
        0 <= d,
        d * 4 <= usize::MAX,
    ensures
        r@ == zero_row(d),
{
    let mut shape: Vec<i64> = Vec::new();
    shape.push(1);
    shape.push(d);
    let mut data: Vec<u8> = Vec::new();
    crate::bytes::push_zeros(&mut data, d as usize * 4);
    assert(shape@ =~= seq![1i64, d]);
    assert(data@ =~= zeros(d * 4));
    InitializerIr { dtype: FLOAT, shape, data }
}

proof fn lemma_changed_shape(nodes: Seq<NodeIr>, list: Seq<Repoint>)
    requires
        changes_ok(nodes, list),
    ensures
        ({
            let reads = nodes.map_values(|n: NodeIr| texts(n.inputs@));
            changed(reads, list).len() == nodes.len() && forall|i: int|
                0 <= i < nodes.len() ==> (#[trigger] changed(reads, list)[i]).len()
                    == nodes[i].inputs@.len()
        }),
    decreases list.len(),
{
    if list.len() > 0 {
        let rest = list.drop_last();
        assert forall|k: int| 0 <= k < rest.len() implies (#[trigger] rest[k]).node < nodes.len()
            && rest[k].operand < nodes[rest[k].node as int].inputs@.len() by {
            assert(rest[k] == list[k]);
        }
        lemma_changed_shape(nodes, rest);
        let reads = nodes.map_values(|n: NodeIr| texts(n.inputs@));
        assert forall|i: int| 0 <= i < nodes.len() implies (#[trigger] changed(
            reads,
            list,
        )[i]).len() == nodes[i].inputs@.len() by {
            assert(changed(reads, rest)[i].len() == nodes[i].inputs@.len());
        }
    }
}

/// Whether a graph is another with its constant masks folded, `r` of them.
pub open spec fn masks_folded(before: GraphIr, after: GraphIr, r: int) -> bool {
    &&& after.inputs == before.inputs
    &&& after.outputs == before.outputs
    &&& r == count_set(has_mask(before), before.nodes@.len() as int)
    &&& after.initializers.wf()
    &&& forall|name: Seq<char>|
        #[trigger] tensor_under(after.initializers, name) == {
            let added = zero_constants(before, before.nodes@.len() as int);
            if added.contains_key(name) {
                Some(added[name])
            } else {
                tensor_under(before.initializers, name)
            }
        }
    &&& exists|mid: Seq<NodeIr>|
        #[trigger] nodes_read(
            mid,
            before.nodes@,
            reads_after(before, before.nodes@.len() as int),
        ) && after.nodes@ == rebuilt(
            mid,
            masked_nodes(before, before.nodes@.len() as int),
            nothing(before.nodes@.len()),
            before.nodes@.len() as int,
        )
}

/// Removes every mask that is constant: whoever read the masked value reads what was masked,
/// or zeros. Returns how many.
pub fn fold_prev_embed_const_mask(ir: &mut GraphIr) -> (r: usize)
    requires
        old(ir).initializers.wf(),
    ensures
        masks_folded(*old(ir), *final(ir), r as int),
{
    let ghost g = *ir;
    let n: usize = ir.nodes.len();
    let ghost reads0 = g.nodes@.map_values(|n: NodeIr| texts(n.inputs@));
    let ghost flags = has_mask(g);
    let mut dropped: Vec<bool> = vec![false; n];
    let mut list: Vec<Repoint> = Vec::new();
    let mut added: Vec<(String, i64)> = Vec::new();
    let mut count: usize = 0;
    let mut i: usize = 0;
    assert(dropped@ =~= masked_nodes(g, 0));
    while i < n
        invariant
            i <= n,
            n == g.nodes@.len(),
            *ir == g,
            g == *old(ir),
            flags == has_mask(g),
            reads0 == g.nodes@.map_values(|n: NodeIr| texts(n.inputs@)),
            dropped@.len() == n,
            dropped@ == masked_nodes(g, i as int),
            changes_ok(g.nodes@, list@),
            changed(reads0, list@) == reads_after(g, i as int),
            count == count_set(flags, i as int),
            count <= i,
            zeros_in(added@) == zero_constants(g, i as int),
            forall|k: int|
                0 <= k < added@.len() ==> 0 <= (#[trigger] added@[k]).1 && added@[k].1 * 4
                    <= usize::MAX,
        decreases n - i,
    {
        match find_mask(ir, i) {
            Some(f) => {
                let masked = first_output(&ir.nodes[i]);
                let zero = match f.width {
                    Some(_) => Some(text::joined(masked.as_str(), "__zeros")),
                    None => None,
                };
                let ghost list0 = list@;
                list.push(Repoint { node: i, masked: masked.clone(), operand: f.operand, zero });
                proof {
                    assert(list@.drop_last() =~= list0);
                }
                dropped.set(i, true);
                dropped.set(f.chain.unsqueeze, true);
                dropped.set(f.chain.sum, true);
                dropped.set(f.chain.neg, true);
                dropped.set(f.chain.cast, true);
                match f.equal {
                    Some(e) => {
                        dropped.set(e, true);
                    },
                    None => {},
                }
                let ghost was = added@;
                match f.width {
                    Some(d) => {
                        added.push((text::joined(masked.as_str(), "__zeros"), d));
                        assert(added@.drop_last() =~= was);
                    },
                    None => {},
                }
                count += 1;
                assert(flags[i as int]);
            },
            None => {
                assert(!flags[i as int]);
            },
        }
        i += 1;
    }
    let m: usize = list.len();
    let mut j: usize = 0;
    proof {
        assert(list@.take(0) =~= Seq::empty());
        assert forall|q: int| 0 <= q < n implies same_but_reads(
            #[trigger] ir.nodes@[q],
            g.nodes@[q],
            reads0[q],
        ) by {}
    }
    while j < m
        invariant
            j <= m,
            m == list@.len(),
            n == g.nodes@.len(),
            ir.initializers == g.initializers,
            ir.inputs == g.inputs,
            ir.outputs == g.outputs,
            reads0 == g.nodes@.map_values(|n: NodeIr| texts(n.inputs@)),
            changes_ok(g.nodes@, list@),
            nodes_read(ir.nodes@, g.nodes@, changed(reads0, list@.take(j as int))),
        decreases m - j,
    {
        let ghost before = ir.nodes@;
        let ghost r0 = changed(reads0, list@.take(j as int));
        proof {
            assert(list@.take(j + 1).drop_last() =~= list@.take(j as int));
            assert(list@.take(j + 1).last() == list@[j as int]);
            assert(changes_ok(g.nodes@, list@.take(j as int))) by {
                assert forall|k: int| 0 <= k < j implies (#[trigger] list@.take(j as int)[k]).node
                    < g.nodes@.len() && list@.take(j as int)[k].operand
                    < g.nodes@[list@.take(j as int)[k].node as int].inputs@.len() by {
                    assert(list@.take(j as int)[k] == list@[k]);
                }
            }
            lemma_changed_shape(g.nodes@, list@.take(j as int));
            assert(list@[j as int].node < g.nodes@.len());
            assert(same_but_reads(
                ir.nodes@[list@[j as int].node as int],
                g.nodes@[list@[j as int].node as int],
                r0[list@[j as int].node as int],
            ));
            assert(texts(ir.nodes@[list@[j as int].node as int].inputs@).len()
                == ir.nodes@[list@[j as int].node as int].inputs@.len());
        }
        let c: usize = list[j].node;
        let place: usize = list[j].operand;
        let instead: String = match &list[j].zero {
            Some(z) => z.clone(),
            None => ir.nodes[c].inputs[place].clone(),
        };
        proof {
            assert(texts(ir.nodes@[c as int].inputs@)[place as int]
                == ir.nodes@[c as int].inputs@[place as int]@);
        }
        replace_reads(
            &mut ir.nodes,
            list[j].masked.as_str(),
            &instead,
            Ghost(g.nodes@),
            Ghost(r0),
        );
        j += 1;
    }
    assert(list@.take(m as int) =~= list@);
    let ghost mid = ir.nodes@;
    let k: usize = added.len();
    let mut j: usize = 0;
    assert(added@.take(0) =~= Seq::empty());
    while j < k
        invariant
            j <= k,
            k == added@.len(),
            ir.nodes@ == mid,
            ir.inputs == g.inputs,
            ir.outputs == g.outputs,
            ir.initializers.wf(),
            forall|q: int|
                0 <= q < added@.len() ==> 0 <= (#[trigger] added@[q]).1 && added@[q].1 * 4
                    <= usize::MAX,
            forall|name: Seq<char>|
                #[trigger] tensor_under(ir.initializers, name) == {
                    let z = zeros_in(added@.take(j as int));
                    if z.contains_key(name) {
                        Some(z[name])
                    } else {
                        tensor_under(g.initializers, name)
                    }
                },
        decreases k - j,
    {
        let ghost was = ir.initializers;
        let ghost z0 = zeros_in(added@.take(j as int));
        ir.initializers.insert(added[j].0.clone(), zero_initializer(added[j].1));
        proof {
            assert(added@.take(j + 1).drop_last() =~= added@.take(j as int));
            assert(added@.take(j + 1).last() == added@[j as int]);
            assert forall|name: Seq<char>|
                #[trigger] tensor_under(ir.initializers, name) == {
                    let z = zeros_in(added@.take(j + 1));
                    if z.contains_key(name) {
                        Some(z[name])
                    } else {
                        tensor_under(g.initializers, name)
                    }
                } by {
                assert(tensor_under(was, name) == if z0.contains_key(name) {
                    Some(z0[name])
                } else {
                    tensor_under(g.initializers, name)
                });
            }
        }
        j += 1;
    }
    assert(added@.take(k as int) =~= added@);
    let mut nodes: Vec<NodeIr> = Vec::new();
    core::mem::swap(&mut nodes, &mut ir.nodes);
    assert(nodes_read(mid, g.nodes@, reads_after(g, n as int)));
    ir.nodes = rebuild(nodes, &dropped, no_nodes(n));
    count
}

/// The rows of zeros under these names.
pub open spec fn zeros_in(added: Seq<(String, i64)>) -> Map<Seq<char>, TensorView>
    decreases added.len(),
{
    if added.len() == 0 {
        Map::empty()
    } else {
        zeros_in(added.drop_last()).insert(added.last().0@, zero_row(added.last().1))
    }
}

} // verus!
