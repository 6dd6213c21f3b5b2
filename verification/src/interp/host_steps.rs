//! What the operators on the host need.

use crate::error::Result;
use crate::execution::ExecutionEnv;
use crate::graph::{AttrValue, NodeIr, TensorView};
use crate::host_ops::arith::{compare, compare_of, floor, floor_of, not, not_of, CmpOp};
use crate::host_ops::fill::{const_of_shape, const_of_shape_of, expand, expand_of, tile, tile_of};
use crate::host_ops::gather::{gather_elements, gather_elements_of};
use crate::host_ops::join::{scatter_nd, scatter_nd_of, scatter_sound};
use crate::host_ops::ready::{
    elements_fit, gather_elements_ready, rank_ready, scatter_ready, tile_fits, tile_ready, top_fits,
    top_k_ready,
};
use crate::host_ops::{HostTensor, FLOAT};
use crate::interp::conv::size;
use crate::interp::work::{
    as_result, ints_in, one_result, read, read_ints, read_of, refused, result_work, works, Elements,
    ElementsView, Read, ReadView, Work, WorkView,
};
use crate::names::NameMap;
use vstd::prelude::*;

verus! {

// --- one operand ------------------------------------------------------------------------

pub open spec fn floor_step(
    env: ExecutionEnv,
    fetched: NameMap<HostTensor>,
    node: NodeIr,
) -> Option<WorkView> {
    match read_of(env, fetched, node, 0) {
        ReadView::Refused => None,
        ReadView::Away => Some(WorkView::Fetch(0)),
        ReadView::Here(x) => result_work(true, floor_of(x)),
    }
}

pub fn step_floor(env: &ExecutionEnv, fetched: &NameMap<HostTensor>, node: &NodeIr) -> (r: Result<Work>)
    ensures
        works(r, floor_step(*env, *fetched, *node)),
{
    match read(env, fetched, node, 0) {
        Read::Refused => refused(),
        Read::Away => Ok(Work::Fetch(0)),
        Read::Here(x) => as_result(floor(&x), Ghost(floor_of(x@))),
    }
}

pub open spec fn not_step(
    env: ExecutionEnv,
    fetched: NameMap<HostTensor>,
    node: NodeIr,
) -> Option<WorkView> {
    match read_of(env, fetched, node, 0) {
        ReadView::Refused => None,
        ReadView::Away => Some(WorkView::Fetch(0)),
        ReadView::Here(x) => result_work(true, not_of(x)),
    }
}

pub fn step_not(env: &ExecutionEnv, fetched: &NameMap<HostTensor>, node: &NodeIr) -> (r: Result<Work>)
    ensures
        works(r, not_step(*env, *fetched, *node)),
{
    match read(env, fetched, node, 0) {
        Read::Refused => refused(),
        Read::Away => Ok(Work::Fetch(0)),
        Read::Here(x) => as_result(not(&x), Ghost(not_of(x@))),
    }
}

// --- two operands -----------------------------------------------------------------------

/// The first two inputs on the host.
pub enum Pair {
    Here(HostTensor, HostTensor),
    Away(usize),
    Refused,
}

pub enum PairView {
    Here(TensorView, TensorView),
    Away(int),
    Refused,
}

impl View for Pair {
    type V = PairView;

    open spec fn view(&self) -> PairView {
        match *self {
            Pair::Here(a, b) => PairView::Here(a@, b@),
            Pair::Away(i) => PairView::Away(i as int),
            Pair::Refused => PairView::Refused,
        }
    }
}

pub open spec fn pair_of(
    env: ExecutionEnv,
    fetched: NameMap<HostTensor>,
    node: NodeIr,
) -> PairView {
    match read_of(env, fetched, node, 0) {
        ReadView::Refused => PairView::Refused,
        ReadView::Away => PairView::Away(0),
        ReadView::Here(a) => match read_of(env, fetched, node, 1) {
            ReadView::Refused => PairView::Refused,
            ReadView::Away => PairView::Away(1),
            ReadView::Here(b) => PairView::Here(a, b),
        },
    }
}

pub fn read_pair(env: &ExecutionEnv, fetched: &NameMap<HostTensor>, node: &NodeIr) -> (r: Pair)
    ensures
        r@ == pair_of(*env, *fetched, *node),
{
    match read(env, fetched, node, 0) {
        Read::Refused => Pair::Refused,
        Read::Away => Pair::Away(0),
        Read::Here(a) => match read(env, fetched, node, 1) {
            Read::Refused => Pair::Refused,
            Read::Away => Pair::Away(1),
            Read::Here(b) => Pair::Here(a, b),
        },
    }
}

pub open spec fn compare_step(
    env: ExecutionEnv,
    fetched: NameMap<HostTensor>,
    node: NodeIr,
    op: CmpOp,
) -> Option<WorkView> {
    match pair_of(env, fetched, node) {
        PairView::Refused => None,
        PairView::Away(i) => Some(WorkView::Fetch(i)),
        PairView::Here(a, b) => result_work(true, compare_of(a, b, op)),
    }
}

pub fn step_compare(
    env: &ExecutionEnv,
    fetched: &NameMap<HostTensor>,
    node: &NodeIr,
    op: CmpOp,
) -> (r: Result<Work>)
    ensures
        works(r, compare_step(*env, *fetched, *node, op)),
{
    match read_pair(env, fetched, node) {
        Pair::Refused => refused(),
        Pair::Away(i) => Ok(Work::Fetch(i)),
        Pair::Here(a, b) => as_result(compare(&a, &b, op), Ghost(compare_of(a@, b@, op))),
    }
}

pub open spec fn mod_step(
    env: ExecutionEnv,
    fetched: NameMap<HostTensor>,
    node: NodeIr,
) -> Option<WorkView> {
    match pair_of(env, fetched, node) {
        PairView::Refused => None,
        PairView::Away(i) => Some(WorkView::Fetch(i)),
        PairView::Here(a, b) => Some(
            WorkView::Remainder(node.opt_int_attr("fmod"@) == Some(1i64), a, b),
        ),
    }
}

pub fn step_mod(env: &ExecutionEnv, fetched: &NameMap<HostTensor>, node: &NodeIr) -> (r: Result<Work>)
    ensures
        works(r, mod_step(*env, *fetched, *node)),
{
    match read_pair(env, fetched, node) {
        Pair::Refused => refused(),
        Pair::Away(i) => Ok(Work::Fetch(i)),
        Pair::Here(a, b) => {
            let fmod: bool = match node.attr_opt_i64("fmod") {
                Some(v) => v == 1,
                None => false,
            };
            Ok(Work::Remainder(fmod, a, b))
        },
    }
}

pub open spec fn gather_elements_step(
    env: ExecutionEnv,
    fetched: NameMap<HostTensor>,
    node: NodeIr,
) -> Option<WorkView> {
    let axis = node.int_attr("axis"@, 0) as int;
    match pair_of(env, fetched, node) {
        PairView::Refused => None,
        PairView::Away(i) => Some(WorkView::Fetch(i)),
        PairView::Here(a, b) => result_work(
            elements_fit(a, b, axis),
            gather_elements_of(a, b, axis),
        ),
    }
}

pub fn step_gather_elements(env: &ExecutionEnv, fetched: &NameMap<HostTensor>, node: &NodeIr) -> (r: Result<
    Work,
>)
    ensures
        works(r, gather_elements_step(*env, *fetched, *node)),
{
    let axis: i64 = node.attr_i64("axis", 0);
    match read_pair(env, fetched, node) {
        Pair::Refused => refused(),
        Pair::Away(i) => Ok(Work::Fetch(i)),
        Pair::Here(a, b) => if gather_elements_ready(&a, &b, axis) {
            as_result(
                gather_elements(&a, &b, axis),
                Ghost(gather_elements_of(a@, b@, axis as int)),
            )
        } else {
            refused()
        },
    }
}

pub open spec fn scatter_step(
    env: ExecutionEnv,
    fetched: NameMap<HostTensor>,
    node: NodeIr,
) -> Option<WorkView> {
    match pair_of(env, fetched, node) {
        PairView::Refused => None,
        PairView::Away(i) => Some(WorkView::Fetch(i)),
        PairView::Here(a, b) => match read_of(env, fetched, node, 2) {
            ReadView::Refused => None,
            ReadView::Away => Some(WorkView::Fetch(2)),
            ReadView::Here(c) => result_work(scatter_sound(a, b), scatter_nd_of(a, b, c)),
        },
    }
}

pub fn step_scatter(env: &ExecutionEnv, fetched: &NameMap<HostTensor>, node: &NodeIr) -> (r: Result<Work>)
    ensures
        works(r, scatter_step(*env, *fetched, *node)),
{
    match read_pair(env, fetched, node) {
        Pair::Refused => refused(),
        Pair::Away(i) => Ok(Work::Fetch(i)),
        Pair::Here(a, b) => match read(env, fetched, node, 2) {
            Read::Refused => refused(),
            Read::Away => Ok(Work::Fetch(2)),
            Read::Here(c) => if scatter_ready(&a, &b) {
                as_result(scatter_nd(&a, &b, &c), Ghost(scatter_nd_of(a@, b@, c@)))
            } else {
                refused()
            },
        },
    }
}

// --- filling ----------------------------------------------------------------------------

/// The value that `ConstantOfShape` repeats: an attribute, by default one zero.
pub open spec fn fill_value(node: NodeIr) -> (i32, Seq<u8>) {
    if node.attrs.has("value"@) && node.attrs.at("value"@) is Tensor {
        let t = (node.attrs.at("value"@)->Tensor_0)@;
        (t.dtype, t.data)
    } else {
        (FLOAT, seq![0u8, 0u8, 0u8, 0u8])
    }
}

pub open spec fn constant_of_shape_step(
    env: ExecutionEnv,
    fetched: NameMap<HostTensor>,
    node: NodeIr,
) -> Option<WorkView> {
    match ints_in(env, fetched, node, 0) {
        ElementsView::Refused => None,
        ElementsView::Away => Some(WorkView::Fetch(0)),
        ElementsView::Here(shape) => result_work(
            true,
            const_of_shape_of(shape, fill_value(node).0, fill_value(node).1),
        ),
    }
}

pub fn step_constant_of_shape(env: &ExecutionEnv, fetched: &NameMap<HostTensor>, node: &NodeIr) -> (r: Result<
    Work,
>)
    ensures
        works(r, constant_of_shape_step(*env, *fetched, *node)),
{
    let shape: Vec<i64> = match read_ints(env, fetched, node, 0) {
        Elements::Refused => {
            return refused();
        },
        Elements::Away => {
            return Ok(Work::Fetch(0));
        },
        Elements::Here(v) => v,
    };
    let ghost s = shape@;
    match node.attrs.get("value") {
        Some(AttrValue::Tensor(t)) => {
            let ghost want = const_of_shape_of(s, t.dtype, t.data@);
            as_result(const_of_shape(shape, t.dtype, t.data.as_slice()), Ghost(want))
        },
        _ => {
            let zero: Vec<u8> = vec![0, 0, 0, 0];
            assert(zero@ =~= seq![0u8, 0u8, 0u8, 0u8]);
            let ghost want = const_of_shape_of(s, FLOAT, zero@);
            as_result(const_of_shape(shape, FLOAT, zero.as_slice()), Ghost(want))
        },
    }
}

/// An input on the host and the elements of the second input, which is read first.
pub enum Shaped {
    Here(HostTensor, Vec<i64>),
    Away(usize),
    Refused,
}

pub enum ShapedView {
    Here(TensorView, Seq<i64>),
    Away(int),
    Refused,
}

impl View for Shaped {
    type V = ShapedView;

    open spec fn view(&self) -> ShapedView {
        match *self {
            Shaped::Here(a, v) => ShapedView::Here(a@, v@),
            Shaped::Away(i) => ShapedView::Away(i as int),
            Shaped::Refused => ShapedView::Refused,
        }
    }
}

pub open spec fn shaped_of(
    env: ExecutionEnv,
    fetched: NameMap<HostTensor>,
    node: NodeIr,
) -> ShapedView {
    match ints_in(env, fetched, node, 1) {
        ElementsView::Refused => ShapedView::Refused,
        ElementsView::Away => ShapedView::Away(1),
        ElementsView::Here(v) => match read_of(env, fetched, node, 0) {
            ReadView::Refused => ShapedView::Refused,
            ReadView::Away => ShapedView::Away(0),
            ReadView::Here(x) => ShapedView::Here(x, v),
        },
    }
}

fn read_shaped(env: &ExecutionEnv, fetched: &NameMap<HostTensor>, node: &NodeIr) -> (r: Shaped)
    ensures
        r@ == shaped_of(*env, *fetched, *node),
{
    match read_ints(env, fetched, node, 1) {
        Elements::Refused => Shaped::Refused,
        Elements::Away => Shaped::Away(1),
        Elements::Here(v) => match read(env, fetched, node, 0) {
            Read::Refused => Shaped::Refused,
            Read::Away => Shaped::Away(0),
            Read::Here(x) => Shaped::Here(x, v),
        },
    }
}

pub open spec fn expand_step(
    env: ExecutionEnv,
    fetched: NameMap<HostTensor>,
    node: NodeIr,
) -> Option<WorkView> {
    match shaped_of(env, fetched, node) {
        ShapedView::Refused => None,
        ShapedView::Away(i) => Some(WorkView::Fetch(i)),
        ShapedView::Here(x, v) => result_work(true, expand_of(x, v)),
    }
}

pub fn step_expand(env: &ExecutionEnv, fetched: &NameMap<HostTensor>, node: &NodeIr) -> (r: Result<Work>)
    ensures
        works(r, expand_step(*env, *fetched, *node)),
{
    match read_shaped(env, fetched, node) {
        Shaped::Refused => refused(),
        Shaped::Away(i) => Ok(Work::Fetch(i)),
        Shaped::Here(x, v) => as_result(expand(&x, v.as_slice()), Ghost(expand_of(x@, v@))),
    }
}

pub open spec fn tile_step(
    env: ExecutionEnv,
    fetched: NameMap<HostTensor>,
    node: NodeIr,
) -> Option<WorkView> {
    match shaped_of(env, fetched, node) {
        ShapedView::Refused => None,
        ShapedView::Away(i) => Some(WorkView::Fetch(i)),
        ShapedView::Here(x, v) => result_work(tile_fits(x, v), tile_of(x, v)),
    }
}

pub fn step_tile(env: &ExecutionEnv, fetched: &NameMap<HostTensor>, node: &NodeIr) -> (r: Result<Work>)
    ensures
        works(r, tile_step(*env, *fetched, *node)),
{
    match read_shaped(env, fetched, node) {
        Shaped::Refused => refused(),
        Shaped::Away(i) => Ok(Work::Fetch(i)),
        Shaped::Here(x, v) => if tile_ready(&x, v.as_slice()) {
            as_result(tile(&x, v.as_slice()), Ghost(tile_of(x@, v@)))
        } else {
            refused()
        },
    }
}

/// `Constant`: the value is an attribute.
pub open spec fn constant_step(node: NodeIr) -> Option<WorkView> {
    if node.attrs.has("value"@) && node.attrs.at("value"@) is Tensor {
        Some(WorkView::Results(seq![(node.attrs.at("value"@)->Tensor_0)@]))
    } else {
        None
    }
}

pub fn step_constant(node: &NodeIr) -> (r: Result<Work>)
    ensures
        works(r, constant_step(*node)),
{
    match node.attrs.get("value") {
        Some(AttrValue::Tensor(t)) => Ok(one_result(t.to_host())),
        _ => refused(),
    }
}

pub open spec fn range_step(
    env: ExecutionEnv,
    fetched: NameMap<HostTensor>,
    node: NodeIr,
) -> Option<WorkView> {
    match pair_of(env, fetched, node) {
        PairView::Refused => None,
        PairView::Away(i) => Some(WorkView::Fetch(i)),
        PairView::Here(a, b) => match read_of(env, fetched, node, 2) {
            ReadView::Refused => None,
            ReadView::Away => Some(WorkView::Fetch(2)),
            ReadView::Here(c) => Some(WorkView::Range(a, b, c)),
        },
    }
}

pub fn step_range(env: &ExecutionEnv, fetched: &NameMap<HostTensor>, node: &NodeIr) -> (r: Result<Work>)
    ensures
        works(r, range_step(*env, *fetched, *node)),
{
    match read_pair(env, fetched, node) {
        Pair::Refused => refused(),
        Pair::Away(i) => Ok(Work::Fetch(i)),
        Pair::Here(a, b) => match read(env, fetched, node, 2) {
            Read::Refused => refused(),
            Read::Away => Ok(Work::Fetch(2)),
            Read::Here(c) => Ok(Work::Range(a, b, c)),
        },
    }
}

// --- along an axis ----------------------------------------------------------------------

pub open spec fn cumsum_step(
    env: ExecutionEnv,
    fetched: NameMap<HostTensor>,
    node: NodeIr,
) -> Option<WorkView> {
    match read_of(env, fetched, node, 0) {
        ReadView::Refused => None,
        ReadView::Away => Some(WorkView::Fetch(0)),
        ReadView::Here(x) => match ints_in(env, fetched, node, 1) {
            ElementsView::Refused => None,
            ElementsView::Away => Some(WorkView::Fetch(1)),
            ElementsView::Here(a) => if a.len() == 1 && x.shape.len() <= i64::MAX {
                Some(
                    WorkView::RunningSums(
                        x,
                        a[0],
                        node.int_attr("exclusive"@, 0) != 0,
                        node.int_attr("reverse"@, 0) != 0,
                    ),
                )
            } else {
                None
            },
        },
    }
}

pub fn step_cumsum(env: &ExecutionEnv, fetched: &NameMap<HostTensor>, node: &NodeIr) -> (r: Result<Work>)
    ensures
        works(r, cumsum_step(*env, *fetched, *node)),
{
    match read(env, fetched, node, 0) {
        Read::Refused => refused(),
        Read::Away => Ok(Work::Fetch(0)),
        Read::Here(x) => match read_ints(env, fetched, node, 1) {
            Elements::Refused => refused(),
            Elements::Away => Ok(Work::Fetch(1)),
            Elements::Here(a) => if a.len() == 1 && rank_ready(x.shape.as_slice()) {
                Ok(
                    Work::RunningSums(
                        x,
                        a[0],
                        node.attr_i64("exclusive", 0) != 0,
                        node.attr_i64("reverse", 0) != 0,
                    ),
                )
            } else {
                refused()
            },
        },
    }
}

pub open spec fn top_k_step(
    env: ExecutionEnv,
    fetched: NameMap<HostTensor>,
    node: NodeIr,
) -> Option<WorkView> {
    let axis = node.int_attr("axis"@, (-1) as i64);
    match read_of(env, fetched, node, 0) {
        ReadView::Refused => None,
        ReadView::Away => Some(WorkView::Fetch(0)),
        ReadView::Here(x) => match ints_in(env, fetched, node, 1) {
            ElementsView::Refused => None,
            ElementsView::Away => Some(WorkView::Fetch(1)),
            ElementsView::Here(k) => if k.len() == 1 && 0 <= k[0] <= usize::MAX && top_fits(
                x,
                k[0] as int,
                axis as int,
            ) {
                Some(
                    WorkView::TopK(
                        x,
                        k[0] as int,
                        axis,
                        node.int_attr("largest"@, 1) != 0,
                    ),
                )
            } else {
                None
            },
        },
    }
}

pub fn step_top_k(env: &ExecutionEnv, fetched: &NameMap<HostTensor>, node: &NodeIr) -> (r: Result<Work>)
    ensures
        works(r, top_k_step(*env, *fetched, *node)),
{
    let axis: i64 = node.attr_i64("axis", -1);
    match read(env, fetched, node, 0) {
        Read::Refused => refused(),
        Read::Away => Ok(Work::Fetch(0)),
        Read::Here(x) => match read_ints(env, fetched, node, 1) {
            Elements::Refused => refused(),
            Elements::Away => Ok(Work::Fetch(1)),
            Elements::Here(k) => {
                if k.len() != 1 {
                    return refused();
                }
                match size(k[0]) {
                    Some(n) => if top_k_ready(&x, n, axis) {
                        Ok(Work::TopK(x, n, axis, node.attr_i64("largest", 1) != 0))
                    } else {
                        refused()
                    },
                    None => refused(),
                }
            },
        },
    }
}

// --- If ---------------------------------------------------------------------------------

/// Which branch of `If` runs: the first where the condition is not zero.
pub open spec fn if_step(
    env: ExecutionEnv,
    fetched: NameMap<HostTensor>,
    node: NodeIr,
) -> Option<WorkView> {
    match ints_in(env, fetched, node, 0) {
        ElementsView::Refused => None,
        ElementsView::Away => Some(WorkView::Fetch(0)),
        ElementsView::Here(c) => if c.len() > 0 {
            Some(WorkView::Branch(c[0] != 0))
        } else {
            None
        },
    }
}

pub fn step_if(env: &ExecutionEnv, fetched: &NameMap<HostTensor>, node: &NodeIr) -> (r: Result<Work>)
    ensures
        works(r, if_step(*env, *fetched, *node)),
{
    match read_ints(env, fetched, node, 0) {
        Elements::Refused => refused(),
        Elements::Away => Ok(Work::Fetch(0)),
        Elements::Here(c) => if c.len() > 0 {
            Ok(Work::Branch(c[0] != 0))
        } else {
            refused()
        },
    }
}

} // verus!
