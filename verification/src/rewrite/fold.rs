//! Computing at load time what is constant.

use crate::bytes::{bits_of, signed32};
use crate::error::Kind;
use crate::graph::{tensor_under, GraphIr, InitializerIr, NodeIr, TensorView};
use crate::host_ops::arith::{divide, magnitude, quotient, remainder, remainder_of};
use crate::host_ops::gather::{dequantize_fits, dequantize_linear, dequantize_of};
use crate::host_ops::join::{agrees, axis_sum, concat, concat_of, first_fault, views};
use crate::host_ops::ready::dequantize_ready;
use crate::host_ops::scan::front_axis;
use crate::host_ops::{cast, cast_of, fault, ints_of, lemma_sound_len, HostTensor};
use crate::names::NameMap;
use crate::num::{checked_product, in_range, product_fits};
use crate::rewrite::{
    attr_int, const_of, constant, has_name, int_attr_of, is_output, no_nodes, nothing, rebuild,
    rebuilt,
};
use crate::shape::{lemma_count, product};
use crate::text;
use crate::text::texts;
use vstd::prelude::*;

verus! {

// --- reshaping --------------------------------------------------------------------------

/// The requested dimensions, with 0 standing for the input's dimension at the same place.
pub open spec fn substituted(input: Seq<i64>, requested: Seq<i64>) -> Seq<i64> {
    Seq::new(
        requested.len(),
        |i: int|
            if requested[i] == 0 {
                if i < input.len() {
                    input[i]
                } else {
                    0
                }
            } else {
                requested[i]
            },
    )
}

/// The dimensions other than -1.
pub open spec fn known_dims(shape: Seq<i64>) -> Seq<i64>
    decreases shape.len(),
{
    if shape.len() == 0 {
        Seq::empty()
    } else {
        let rest = known_dims(shape.drop_last());
        if shape.last() == -1 {
            rest
        } else {
            rest.push(shape.last())
        }
    }
}

/// Whether `i` is the first place of -1.
pub open spec fn first_open(shape: Seq<i64>, i: int) -> bool {
    0 <= i < shape.len() && shape[i] == -1 && forall|k: int| 0 <= k < i ==> #[trigger] shape[k] != -1
}

/// The dimensions with the first -1 replaced by what is left of the total.
pub open spec fn completed(shape: Seq<i64>, total: int) -> Option<Seq<i64>> {
    let known = known_dims(shape);
    if exists|i: int| first_open(shape, i) {
        let i = choose|i: int| first_open(shape, i);
        if product_fits(known) && product(known) != 0 && remainder(total, product(known)) == 0
            && in_range(quotient(total, product(known))) {
            Some(shape.update(i, quotient(total, product(known)) as i64))
        } else {
            None
        }
    } else {
        Some(shape)
    }
}

/// The shape that a reshape of `input` gives, if it holds as many elements and no dimension
/// is negative.
pub open spec fn reshaped(input: Seq<i64>, requested: Seq<i64>) -> Option<Seq<i64>> {
    if !product_fits(input) {
        None
    } else {
        match completed(substituted(input, requested), product(input)) {
            Some(s) => if product_fits(s) && product(s) == product(input) && forall|d: int|
                0 <= d < s.len() ==> #[trigger] s[d] >= 0 {
                Some(s)
            } else {
                None
            },
            None => None,
        }
    }
}

/// The shape that a reshape gives: 0 takes over the input's dimension, -1 is inferred. Nothing
/// where the result would not hold the same elements.
pub fn resolve_reshape(input: &[i64], requested: &[i64]) -> (r: Option<Vec<i64>>)
    ensures
        match r {
            Some(s) => reshaped(input@, requested@) == Some(s@),
            None => reshaped(input@, requested@) is None,
        },
{
    let total: i64 = match checked_product(input) {
        Some(t) => t,
        None => {
            return None;
        },
    };
    let n: usize = requested.len();
    let mut shape: Vec<i64> = Vec::new();
    let mut known: Vec<i64> = Vec::new();
    let mut open: Option<usize> = None;
    let mut i: usize = 0;
    let ghost sub = substituted(input@, requested@);
    assert(sub.take(0) =~= Seq::empty());
    while i < n
        invariant
            i <= n,
            n == requested@.len(),
            sub == substituted(input@, requested@),
            shape@ == sub.take(i as int),
            known@ == known_dims(sub.take(i as int)),
            match open {
                Some(k) => first_open(sub, k as int) && k < i,
                None => forall|k: int| 0 <= k < i ==> #[trigger] sub[k] != -1,
            },
        decreases n - i,
    {
        let d: i64 = if requested[i] == 0 {
            if i < input.len() {
                input[i]
            } else {
                0
            }
        } else {
            requested[i]
        };
        assert(d == sub[i as int]);
        assert(sub.take(i + 1).drop_last() =~= sub.take(i as int));
        shape.push(d);
        if d != -1 {
            known.push(d);
        } else if open.is_none() {
            open = Some(i);
        }
        i += 1;
        assert(shape@ =~= sub.take(i as int));
    }
    assert(sub.take(n as int) =~= sub);
    match open {
        Some(k) => {
            proof {
                assert(first_open(sub, k as int));
                let c = choose|i: int| first_open(sub, i);
                if c < k {
                    assert(sub[c] != -1);
                } else if k < c {
                    assert(sub[k as int] != -1);
                }
            }
            match checked_product(known.as_slice()) {
                Some(p) => {
                    if p == 0 {
                        return None;
                    }
                    if remainder_of(total, p) != 0 {
                        return None;
                    }
                    if total == i64::MIN && p == -1 {
                        proof {
                            assert(magnitude(total as int) / 1 == magnitude(total as int));
                        }
                        return None;
                    }
                    let q: i64 = divide(total, p);
                    shape.set(k, q);
                },
                None => {
                    return None;
                },
            }
        },
        None => {
            assert(!(exists|i: int| first_open(sub, i)));
        },
    }
    assert(completed(sub, total as int) == Some(shape@));
    match checked_product(shape.as_slice()) {
        Some(p) => {
            if p != total {
                return None;
            }
        },
        None => {
            return None;
        },
    }
    let mut d: usize = 0;
    while d < shape.len()
        invariant
            d <= shape@.len(),
            completed(sub, total as int) == Some(shape@),
            sub == substituted(input@, requested@),
            product_fits(input@),
            total == product(input@),
            forall|k: int| 0 <= k < d ==> #[trigger] shape@[k] >= 0,
        decreases shape@.len() - d,
    {
        if shape[d] < 0 {
            return None;
        }
        d += 1;
    }
    Some(shape)
}

// --- evaluating a node ------------------------------------------------------------------

/// The low 32 bits of `v` as a signed number.
pub open spec fn narrowed(v: i64) -> i32 {
    signed32(v as int % 0x1_0000_0000) as i32
}

fn narrow(v: i64) -> (r: i32)
    ensures
        r == narrowed(v),
{
    let u: u64 = bits_of(v);
    let w: u32 = (u % 0x1_0000_0000) as u32;
    if w >= 0x8000_0000 {
        (w as i64 - 0x1_0000_0000) as i32
    } else {
        w as i32
    }
}

/// The value of a node whose inputs are these tensors, for the operators that are computed at
/// load time. A value that would leave the range of 64-bit integers on the way is left to run
/// time.
pub open spec fn evaluated(node: NodeIr, inputs: Seq<TensorView>) -> Option<TensorView> {
    if node.domain@.len() > 0 || inputs.len() == 0 {
        None
    } else if node.op@ == "DequantizeLinear"@ {
        let zero = if inputs.len() > 2 {
            Some(inputs[2])
        } else {
            None
        };
        if inputs.len() < 2 || !dequantize_fits(inputs[0], zero) {
            None
        } else {
            match dequantize_of(inputs[0], inputs[1], zero) {
                Ok(v) => Some(v),
                Err(_) => None,
            }
        }
    } else if node.op@ == "Cast"@ {
        match int_attr_of(node, "to"@) {
            Some(to) => match cast_of(inputs[0], narrowed(to)) {
                Ok(v) => Some(v),
                Err(_) => None,
            },
            None => None,
        }
    } else if node.op@ == "Concat"@ {
        match int_attr_of(node, "axis"@) {
            Some(axis) => match concat_of(inputs, axis as int) {
                Ok(v) => if inputs[0].shape.len() <= i64::MAX && axis_sum(
                    inputs,
                    front_axis(axis as int, inputs[0].shape.len() as int),
                ) <= i64::MAX {
                    Some(v)
                } else {
                    None
                },
                Err(_) => None,
            },
            None => None,
        }
    } else if node.op@ == "Reshape"@ {
        if inputs.len() < 2 {
            None
        } else {
            match ints_of(inputs[1]) {
                Ok(requested) => match reshaped(inputs[0].shape, requested) {
                    Some(shape) => Some(
                        TensorView { dtype: inputs[0].dtype, shape, data: inputs[0].data },
                    ),
                    None => None,
                },
                Err(_) => None,
            }
        }
    } else {
        None
    }
}

proof fn lemma_sums_fit(ts: Seq<TensorView>, axis: int, i: int)
    requires
        0 <= i <= ts.len(),
        forall|k: int| 0 <= k < ts.len() ==> (#[trigger] ts[k]).shape[axis] >= 0,
    ensures
        0 <= axis_sum(ts.take(i), axis) <= axis_sum(ts, axis),
    decreases ts.len() - i,
{
    if i == ts.len() {
        assert(ts.take(i) =~= ts);
        lemma_sum_positive(ts, axis);
    } else {
        lemma_sums_fit(ts, axis, i + 1);
        assert(ts.take(i + 1).drop_last() =~= ts.take(i));
        assert(ts.take(i + 1).last() == ts[i]);
        assert forall|k: int| 0 <= k < ts.take(i).len() implies (#[trigger] ts.take(i)[k]).shape[axis]
            >= 0 by {
            assert(ts.take(i)[k] == ts[k]);
        }
        lemma_sum_positive(ts.take(i), axis);
    }
}

proof fn lemma_sum_positive(ts: Seq<TensorView>, axis: int)
    requires
        forall|k: int| 0 <= k < ts.len() ==> (#[trigger] ts[k]).shape[axis] >= 0,
    ensures
        0 <= axis_sum(ts, axis),
    decreases ts.len(),
{
    if ts.len() > 0 {
        let rest = ts.drop_last();
        assert forall|k: int| 0 <= k < rest.len() implies (#[trigger] rest[k]).shape[axis] >= 0 by {
            assert(rest[k] == ts[k]);
        }
        lemma_sum_positive(rest, axis);
        assert(ts.last() == ts[ts.len() - 1]);
    }
}

proof fn lemma_concat_ok(ts: Seq<TensorView>, axis: int)
    requires
        concat_of(ts, axis) is Ok,
    ensures
        ts.len() > 0,
        0 <= front_axis(axis, ts[0].shape.len() as int) < ts[0].shape.len(),
        forall|k: int|
            0 <= k < ts.len() ==> (#[trigger] ts[k]).shape.len() == ts[0].shape.len() && ts[k].shape[front_axis(
                axis,
                ts[0].shape.len() as int,
            )] >= 0,
{
    let a = front_axis(axis, ts[0].shape.len() as int);
    assert forall|k: int| 0 <= k < ts.len() implies (#[trigger] ts[k]).shape.len()
        == ts[0].shape.len() && ts[k].shape[a] >= 0 by {
        assert(agrees(ts[k], ts[0], a));
        lemma_no_fault_at(ts, k);
        lemma_sound_len(ts[k]);
        lemma_count(ts[k].shape);
    }
}

proof fn lemma_no_fault_at(ts: Seq<TensorView>, i: int)
    requires
        first_fault(ts) is None,
        0 <= i < ts.len(),
    ensures
        fault(ts[i]) is None,
    decreases ts.len(),
{
    if i < ts.len() - 1 {
        lemma_no_fault_at(ts.drop_last(), i);
        assert(ts.drop_last()[i] == ts[i]);
    }
}

/// The tensors joined along the axis, where that can be done and counted.
fn join_constants(inputs: &Vec<HostTensor>, axis: i64) -> (r: Option<HostTensor>)
    requires
        inputs@.len() > 0,
    ensures
        match r {
            Some(t) => concat_of(views(inputs@), axis as int) == Ok::<TensorView, Kind>(t@)
                && inputs@[0].shape@.len() <= i64::MAX && axis_sum(
                views(inputs@),
                front_axis(axis as int, inputs@[0].shape@.len() as int),
            ) <= i64::MAX,
            None => concat_of(views(inputs@), axis as int) is Err || inputs@[0].shape@.len()
                > i64::MAX || axis_sum(
                views(inputs@),
                front_axis(axis as int, inputs@[0].shape@.len() as int),
            ) > i64::MAX,
        },
{
    let ghost ts = views(inputs@);
    assert(ts[0] == inputs@[0]@);
    if inputs[0].shape.len() as u64 > i64::MAX as u64 {
        return None;
    }
    let rank: i64 = inputs[0].shape.len() as i64;
    let a: i64 = if axis < 0 {
        axis + rank
    } else {
        axis
    };
    let ghost a0 = front_axis(axis as int, inputs@[0].shape@.len() as int);
    if a < 0 || a >= rank {
        return None;
    }
    let at: usize = a as usize;
    let n: usize = inputs.len();
    let mut sum: i64 = 0;
    let mut i: usize = 0;
    assert(ts.take(0) =~= Seq::empty());
    while i < n
        invariant
            i <= n,
            n == inputs@.len(),
            n > 0,
            ts == views(inputs@),
            ts[0] == inputs@[0]@,
            at == a0,
            a0 == front_axis(axis as int, inputs@[0].shape@.len() as int),
            0 <= a0 < inputs@[0].shape@.len(),
            sum == axis_sum(ts.take(i as int), a0),
            sum >= 0,
            forall|k: int| 0 <= k < i ==> (#[trigger] ts[k]).shape[a0] >= 0,
        decreases n - i,
    {
        let t: &HostTensor = &inputs[i];
        proof {
            assert(ts[i as int] == t@);
            assert(ts.take(i + 1).drop_last() =~= ts.take(i as int));
            assert(ts.take(i + 1).last() == t@);
            if concat_of(ts, axis as int) is Ok {
                lemma_concat_ok(ts, axis as int);
                lemma_sums_fit(ts, a0, i + 1);
            }
        }
        if t.shape.len() <= at || t.shape[at] < 0 {
            return None;
        }
        match sum.checked_add(t.shape[at]) {
            Some(s) => {
                sum = s;
            },
            None => {
                return None;
            },
        }
        i += 1;
    }
    proof {
        assert forall|i: int| 0 <= i <= ts.len() implies #[trigger] axis_sum(ts.take(i), a0)
            <= i64::MAX by {
            lemma_sums_fit(ts, a0, i);
            assert(ts.take(n as int) =~= ts);
        }
    }
    proof {
        assert(ts.take(n as int) =~= ts);
        assert(axis_sum(ts.take(n as int), a0) <= i64::MAX);
    }
    match concat(inputs.as_slice(), axis) {
        Ok(t) => Some(t),
        Err(_) => None,
    }
}

/// The value of a node whose inputs are constant.
fn evaluate(node: &NodeIr, inputs: &Vec<HostTensor>) -> (r: Option<HostTensor>)
    ensures
        match r {
            Some(t) => evaluated(*node, views(inputs@)) == Some(t@),
            None => evaluated(*node, views(inputs@)) is None,
        },
{
    if !node.domain.as_str().is_empty() || inputs.len() == 0 {
        return None;
    }
    let op = node.op.as_str();
    if text::same(op, "DequantizeLinear") {
        if inputs.len() < 2 {
            return None;
        }
        let zero = if inputs.len() > 2 {
            Some(&inputs[2])
        } else {
            None
        };
        if !dequantize_ready(&inputs[0], zero) {
            return None;
        }
        match dequantize_linear(&inputs[0], &inputs[1], zero) {
            Ok(t) => Some(t),
            Err(_) => None,
        }
    } else if text::same(op, "Cast") {
        match attr_int(node, "to") {
            Some(to) => match cast(&inputs[0], narrow(to)) {
                Ok(t) => Some(t),
                Err(_) => None,
            },
            None => None,
        }
    } else if text::same(op, "Concat") {
        match attr_int(node, "axis") {
            Some(axis) => join_constants(inputs, axis),
            None => None,
        }
    } else if text::same(op, "Reshape") {
        if inputs.len() < 2 {
            return None;
        }
        match inputs[1].to_i64() {
            Ok(requested) => match resolve_reshape(
                inputs[0].shape.as_slice(),
                requested.as_slice(),
            ) {
                Some(shape) => {
                    let c = inputs[0].duplicate();
                    Some(HostTensor { dtype: c.dtype, shape, data: c.data })
                },
                None => None,
            },
            Err(_) => None,
        }
    } else {
        None
    }
}

// --- folding ----------------------------------------------------------------------------

/// The value of `name`, where it is constant or was computed already.
pub open spec fn value_of(
    ir: GraphIr,
    folded: Map<Seq<char>, TensorView>,
    name: Seq<char>,
) -> Option<TensorView> {
    if folded.contains_key(name) {
        Some(folded[name])
    } else {
        const_of(ir, name)
    }
}

/// The values of the names, where all have one.
pub open spec fn values_of(
    ir: GraphIr,
    folded: Map<Seq<char>, TensorView>,
    names: Seq<Seq<char>>,
) -> Option<Seq<TensorView>>
    decreases names.len(),
{
    if names.len() == 0 {
        Some(Seq::empty())
    } else {
        match (
            values_of(ir, folded, names.drop_last()),
            value_of(ir, folded, names.last()),
        ) {
            (Some(s), Some(v)) => Some(s.push(v)),
            _ => None,
        }
    }
}

/// The value that node `i` is replaced by. Constants, nodes without inputs, nodes that do not
/// have one output and nodes that give a value to the graph's caller stay.
pub open spec fn fold_at(
    ir: GraphIr,
    folded: Map<Seq<char>, TensorView>,
    i: int,
) -> Option<TensorView> {
    let node = ir.nodes@[i];
    if node.op@ == "Constant"@ || node.inputs@.len() == 0 || node.outputs@.len() != 1 || is_output(
        ir,
        node.output_name(0),
    ) {
        None
    } else {
        match values_of(ir, folded, texts(node.inputs@)) {
            Some(v) => evaluated(node, v),
            None => None,
        }
    }
}

/// The values that the first `k` nodes are replaced by, under their names.
pub open spec fn folded_values(ir: GraphIr, k: int) -> Map<Seq<char>, TensorView>
    decreases k,
{
    if k <= 0 {
        Map::empty()
    } else {
        let rest = folded_values(ir, k - 1);
        match fold_at(ir, rest, k - 1) {
            Some(v) => rest.insert(ir.nodes@[k - 1].output_name(0), v),
            None => rest,
        }
    }
}

/// Which nodes are replaced by their values.
pub open spec fn folded_nodes(ir: GraphIr) -> Seq<bool> {
    Seq::new(ir.nodes@.len(), |i: int| fold_at(ir, folded_values(ir, i), i) is Some)
}

/// How many of the first `k` flags are set.
pub open spec fn count_set(flags: Seq<bool>, k: int) -> nat
    decreases k,
{
    if k <= 0 {
        0
    } else {
        count_set(flags, k - 1) + if flags[k - 1] {
            1nat
        } else {
            0nat
        }
    }
}

proof fn lemma_values_step(
    ir: GraphIr,
    folded: Map<Seq<char>, TensorView>,
    names: Seq<Seq<char>>,
    i: int,
)
    requires
        0 <= i <= names.len(),
        values_of(ir, folded, names) is Some,
    ensures
        values_of(ir, folded, names.take(i)) is Some,
    decreases names.len(),
{
    if i < names.len() {
        assert(names.drop_last().take(i) =~= names.take(i));
        lemma_values_step(ir, folded, names.drop_last(), i);
    } else {
        assert(names.take(i) =~= names);
    }
}

/// The values of the inputs of a node, where all are constant.
fn constant_inputs(ir: &GraphIr, folded: &NameMap<InitializerIr>, node: &NodeIr, Ghost(fv): Ghost<
    Map<Seq<char>, TensorView>,
>) -> (r: Option<Vec<HostTensor>>)
    requires
        forall|name: Seq<char>|
            #[trigger] tensor_under(*folded, name) == if fv.contains_key(name) {
                Some(fv[name])
            } else {
                None
            },
    ensures
        match r {
            Some(v) => values_of(*ir, fv, texts(node.inputs@)) == Some(views(v@)),
            None => values_of(*ir, fv, texts(node.inputs@)) is None,
        },
{
    let ghost names = texts(node.inputs@);
    let n: usize = node.inputs.len();
    let mut out: Vec<HostTensor> = Vec::new();
    let mut i: usize = 0;
    proof {
        assert(names.take(0) =~= Seq::empty());
        assert(views(out@) =~= Seq::empty());
    }
    while i < n
        invariant
            i <= n,
            n == node.inputs@.len(),
            names == texts(node.inputs@),
            forall|name: Seq<char>|
                #[trigger] tensor_under(*folded, name) == if fv.contains_key(name) {
                    Some(fv[name])
                } else {
                    None
                },
            values_of(*ir, fv, names.take(i as int)) == Some(views(out@)),
        decreases n - i,
    {
        let name: &String = &node.inputs[i];
        proof {
            assert(names.take(i + 1).drop_last() =~= names.take(i as int));
            assert(names.take(i + 1).last() == name@);
            assert(tensor_under(*folded, name@) == if fv.contains_key(name@) {
                Some(fv[name@])
            } else {
                None
            });
            if values_of(*ir, fv, names) is Some {
                lemma_values_step(*ir, fv, names, i + 1);
            }
        }
        let value = match folded.get(name.as_str()) {
            Some(t) => t.to_host(),
            None => match constant(ir, name.as_str()) {
                Some(t) => t.to_host(),
                None => {
                    return None;
                },
            },
        };
        assert(value_of(*ir, fv, name@) == Some(value@));
        let ghost was = out@;
        out.push(value);
        assert(views(out@) =~= views(was).push(value@));
        i += 1;
    }
    assert(names.take(n as int) =~= names);
    Some(out)
}

/// The value that node `i` is replaced by, given those of the nodes before it.
fn fold_value(ir: &GraphIr, folded: &NameMap<InitializerIr>, i: usize, Ghost(fv): Ghost<
    Map<Seq<char>, TensorView>,
>) -> (r: Option<HostTensor>)
    requires
        i < ir.nodes@.len(),
        forall|name: Seq<char>|
            #[trigger] tensor_under(*folded, name) == if fv.contains_key(name) {
                Some(fv[name])
            } else {
                None
            },
    ensures
        match r {
            Some(t) => fold_at(*ir, fv, i as int) == Some(t@) && ir.nodes@[i as int].outputs@.len()
                == 1,
            None => fold_at(*ir, fv, i as int) is None,
        },
{
    let node: &NodeIr = &ir.nodes[i];
    if text::same(node.op.as_str(), "Constant") || node.inputs.len() == 0 || node.outputs.len() != 1
        || has_name(&ir.outputs, node.outputs[0].as_str()) {
        return None;
    }
    match constant_inputs(ir, folded, node, Ghost(fv)) {
        Some(inputs) => evaluate(node, &inputs),
        None => None,
    }
}

/// Whether a graph is another with its constant nodes folded, `r` of them.
pub open spec fn constants_folded(before: GraphIr, after: GraphIr, r: int) -> bool {
    &&& after.inputs == before.inputs
    &&& after.outputs == before.outputs
    &&& after.nodes@ == rebuilt(
        before.nodes@,
        folded_nodes(before),
        nothing(before.nodes@.len()),
        before.nodes@.len() as int,
    )
    &&& r == count_set(folded_nodes(before), before.nodes@.len() as int)
    &&& after.initializers.wf()
    &&& forall|name: Seq<char>|
        #[trigger] tensor_under(after.initializers, name) == {
            let f = folded_values(before, before.nodes@.len() as int);
            if f.contains_key(name) {
                Some(f[name])
            } else {
                tensor_under(before.initializers, name)
            }
        }
}

/// Replaces every node whose inputs are constant by its value, which becomes an initializer.
/// The nodes are visited in order, so a value computed on the way is constant for the nodes
/// that come later. Returns how many nodes were replaced.
pub fn fold_constants(ir: &mut GraphIr) -> (r: usize)
    requires
        old(ir).initializers.wf(),
    ensures
        constants_folded(*old(ir), *final(ir), r as int),
{
    let ghost g = *ir;
    let n: usize = ir.nodes.len();
    let ghost flags = folded_nodes(g);
    let mut folded: NameMap<InitializerIr> = NameMap::new();
    let mut dropped: Vec<bool> = Vec::new();
    let mut count: usize = 0;
    let mut i: usize = 0;
    while i < n
        invariant
            i <= n,
            n == g.nodes@.len(),
            *ir == g,
            g == *old(ir),
            flags == folded_nodes(g),
            folded.wf(),
            forall|name: Seq<char>|
                #[trigger] tensor_under(folded, name) == {
                    let f = folded_values(g, i as int);
                    if f.contains_key(name) {
                        Some(f[name])
                    } else {
                        None
                    }
                },
            dropped@ == flags.take(i as int),
            count == count_set(flags, i as int),
            count <= i,
        decreases n - i,
    {
        let ghost fv = folded_values(g, i as int);
        let ghost was = folded;
        let value = fold_value(ir, &folded, i, Ghost(fv));
        assert(flags[i as int] == (value is Some));
        match value {
            Some(t) => {
                folded.insert(
                    ir.nodes[i].outputs[0].clone(),
                    InitializerIr { dtype: t.dtype, shape: t.shape, data: t.data },
                );
                dropped.push(true);
                count += 1;
                proof {
                    assert forall|name: Seq<char>|
                        #[trigger] tensor_under(folded, name) == {
                            let f = folded_values(g, i + 1);
                            if f.contains_key(name) {
                                Some(f[name])
                            } else {
                                None
                            }
                        } by {
                        assert(tensor_under(was, name) == if fv.contains_key(name) {
                            Some(fv[name])
                        } else {
                            None
                        });
                    }
                }
            },
            None => {
                dropped.push(false);
            },
        }
        assert(dropped@ =~= flags.take(i + 1));
        i += 1;
    }
    assert(flags.take(n as int) =~= flags);
    let ghost fv = folded_values(g, n as int);
    let m: usize = folded.entries.len();
    let mut j: usize = 0;
    while j < m
        invariant
            j <= m,
            m == folded.entries@.len(),
            folded.wf(),
            ir.nodes == g.nodes,
            ir.inputs == g.inputs,
            ir.outputs == g.outputs,
            ir.initializers.wf(),
            forall|name: Seq<char>|
                #[trigger] tensor_under(ir.initializers, name) == if exists|k: int|
                    0 <= k < j && (#[trigger] folded.entries@[k]).0@ == name {
                    tensor_under(folded, name)
                } else {
                    tensor_under(g.initializers, name)
                },
        decreases m - j,
    {
        let ghost was = ir.initializers;
        let name: String = folded.entries[j].0.clone();
        let value: InitializerIr = folded.entries[j].1.duplicate();
        proof {
            folded.lemma_entry(j as int);
        }
        let ghost key = name@;
        ir.initializers.insert(name, value);
        proof {
            assert(folded.entries@[j as int].0@ == key);
            assert forall|q: Seq<char>|
                #[trigger] tensor_under(ir.initializers, q) == if exists|k: int|
                    0 <= k < j + 1 && (#[trigger] folded.entries@[k]).0@ == q {
                    tensor_under(folded, q)
                } else {
                    tensor_under(g.initializers, q)
                } by {
                assert(tensor_under(was, q) == if exists|k: int|
                    0 <= k < j && (#[trigger] folded.entries@[k]).0@ == q {
                    tensor_under(folded, q)
                } else {
                    tensor_under(g.initializers, q)
                });
            }
        }
        j += 1;
    }
    proof {
        assert forall|name: Seq<char>|
            #[trigger] tensor_under(ir.initializers, name) == if fv.contains_key(name) {
                Some(fv[name])
            } else {
                tensor_under(g.initializers, name)
            } by {
            assert(tensor_under(folded, name) == if fv.contains_key(name) {
                Some(fv[name])
            } else {
                None
            });
            if folded.has(name) {
                let k = folded.lemma_has(name);
                assert(folded.entries@[k].0@ == name);
            } else if exists|k: int| 0 <= k < m && (#[trigger] folded.entries@[k]).0@ == name {
                let k = choose|k: int| 0 <= k < m && (#[trigger] folded.entries@[k]).0@ == name;
                folded.lemma_entry(k);
            }
        }
    }
    let mut nodes: Vec<NodeIr> = Vec::new();
    core::mem::swap(&mut nodes, &mut ir.nodes);
    ir.nodes = rebuild(nodes, &dropped, no_nodes(n));
    count
}

/// A node that gives a value to the graph's caller is never replaced.
pub proof fn law_fold_keeps_outputs(ir: GraphIr, i: int)
    requires
        0 <= i < ir.nodes@.len(),
        is_output(ir, ir.nodes@[i].output_name(0)),
    ensures
        !folded_nodes(ir)[i],
{
}

/// Folding is complete in one pass: a node that could be replaced once all earlier nodes were
/// visited is replaced, and its value is constant for every later node.
pub proof fn law_fold_in_one_pass(ir: GraphIr, i: int, k: int)
    requires
        0 <= i < k <= ir.nodes@.len(),
        fold_at(ir, folded_values(ir, i), i) is Some,
    ensures
        folded_nodes(ir)[i],
        folded_values(ir, k).contains_key(ir.nodes@[i].output_name(0)),
    decreases k,
{
    if i < k - 1 {
        law_fold_in_one_pass(ir, i, k - 1);
    }
}

} // verus!
