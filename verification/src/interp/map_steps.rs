//! What the operators on images, and those between elements, need.

use crate::error::Result;
use crate::execution::{ExecutionEnv, SMALL_HOST_BYTES};
use crate::graph::{NodeIr, TensorView};
use crate::host_ops::arith::BinOp;
use crate::host_ops::{
    copy_dims, float_tensor, returned, returned_of, HostTensor, FLOAT, INT8,
};
use crate::interp::conv::{transposed_geometry, transposed_of};
use crate::interp::elementwise::{clip, clip_of, gpu_binary, gpu_binary_of};
use crate::interp::int_product::IntOperands;
use crate::interp::quantize::{
    dequantize_linear, dequantize_plan_of, quantize_linear, quantize_plan_of,
};
use crate::interp::sampling::{
    grid_sample, grid_sample_of, pool, pool_of, reduce, reduce_axis, reduce_of, reduced_axis, resize_sizes,
    resize_sizes_of, PoolKind,
};
use crate::interp::steps::{first_missing, placed_then};
use crate::interp::window::{attrs_of, conv_geometry, geometry_of, ints_of_attr, window_attrs};
use crate::interp::work::{
    as_plan, as_result, device_in, dtype_in, floats_in, input_dtype, input_shape, on_device, optional_view,
    plan_work, read, read_floats, read_of, refused, result_work, shape_in, works, Elements, ElementsView,
    Read, ReadView, Work, WorkView,
};
use crate::host_ops::ready::reduce_ready;
use crate::host_ops::scan::{reduce_fits, RedOp};
use crate::names::NameMap;
use crate::plan::{planned, Plan, PlanView, ReduceKind};
use vstd::prelude::*;

verus! {

// --- convolutions -----------------------------------------------------------------------

/// The inputs of a convolution: data, weights, and the bias where there is one.
pub open spec fn conv_wants(node: NodeIr) -> Seq<(usize, bool)> {
    if node.given(2) {
        seq![(0usize, true), (1usize, true), (2usize, true)]
    } else {
        seq![(0usize, true), (1usize, true)]
    }
}

fn wants_of_conv(node: &NodeIr) -> (r: Vec<(usize, bool)>)
    ensures
        r@ == conv_wants(*node),
{
    let r: Vec<(usize, bool)> = if node.has_input(2) {
        vec![(0, true), (1, true), (2, true)]
    } else {
        vec![(0, true), (1, true)]
    };
    assert(r@ =~= conv_wants(*node));
    r
}

pub open spec fn conv_step(env: ExecutionEnv, node: NodeIr) -> Option<WorkView> {
    match (shape_in(env, node, 0), shape_in(env, node, 1)) {
        (Some(x), Some(w)) => match geometry_of(attrs_of(node), x, w) {
            None => None,
            Some(g) => placed_then(
                env,
                node,
                conv_wants(node),
                Some(WorkView::Conv(g, node.given(2))),
            ),
        },
        _ => None,
    }
}

pub fn step_conv(env: &ExecutionEnv, node: &NodeIr) -> (r: Result<Work>)
    ensures
        works(r, conv_step(*env, *node)),
{
    let (x, w): (Vec<i64>, Vec<i64>) = match (input_shape(env, node, 0), input_shape(env, node, 1)) {
        (Some(x), Some(w)) => (x, w),
        _ => {
            return refused();
        },
    };
    match conv_geometry(window_attrs(node), x.as_slice(), w.as_slice()) {
        Err(e) => Err(e),
        Ok(g) => match first_missing(env, node, &wants_of_conv(node)) {
            Some((i, f)) => Ok(Work::Place(i, f)),
            None => Ok(Work::Conv(g, node.has_input(2))),
        },
    }
}

pub open spec fn conv_transpose_step(env: ExecutionEnv, node: NodeIr) -> Option<WorkView> {
    let extra = node.ints_attr("output_padding"@);
    match (shape_in(env, node, 0), shape_in(env, node, 1)) {
        (Some(x), Some(w)) => match transposed_of(attrs_of(node), extra, x, w) {
            None => None,
            Some(g) => placed_then(
                env,
                node,
                conv_wants(node),
                Some(
                    WorkView::ConvTranspose(
                        g,
                        extra,
                        node.given(2),
                        env.initializers.has(node.input_name(1)),
                    ),
                ),
            ),
        },
        _ => None,
    }
}

pub fn step_conv_transpose(env: &ExecutionEnv, node: &NodeIr) -> (r: Result<Work>)
    ensures
        works(r, conv_transpose_step(*env, *node)),
{
    let (x, w): (Vec<i64>, Vec<i64>) = match (input_shape(env, node, 0), input_shape(env, node, 1)) {
        (Some(x), Some(w)) => (x, w),
        _ => {
            return refused();
        },
    };
    let extra = ints_of_attr(node, "output_padding");
    match transposed_geometry(
        window_attrs(node),
        ints_of_attr(node, "output_padding"),
        x.as_slice(),
        w.as_slice(),
    ) {
        Err(e) => Err(e),
        Ok(g) => match first_missing(env, node, &wants_of_conv(node)) {
            Some((i, f)) => Ok(Work::Place(i, f)),
            None => {
                let constant: bool = node.inputs.len() > 1 && env.is_initializer(
                    node.inputs[1].as_str(),
                );
                Ok(Work::ConvTranspose(g, extra, node.has_input(2), constant))
            },
        },
    }
}

pub open spec fn zero_wants(node: NodeIr) -> Seq<(usize, bool)> {
    let both = seq![(0usize, false), (1usize, false)];
    let x = if node.given(2) {
        both.push((2usize, false))
    } else {
        both
    };
    if node.given(3) {
        x.push((3usize, false))
    } else {
        x
    }
}

pub open spec fn conv_integer_step(env: ExecutionEnv, node: NodeIr) -> Option<WorkView> {
    match (shape_in(env, node, 0), shape_in(env, node, 1)) {
        (Some(x), Some(w)) => match geometry_of(attrs_of(node), x, w) {
            None => None,
            Some(g) => placed_then(
                env,
                node,
                zero_wants(node),
                Some(
                    WorkView::ConvInteger(
                        g,
                        IntOperands {
                            x_signed: dtype_in(env, node, 0) == Some(INT8),
                            w_signed: dtype_in(env, node, 1) == Some(INT8),
                            x_zero: node.given(2),
                            w_zero: node.given(3),
                            w_constant: env.initializers.has(node.input_name(1)),
                        },
                    ),
                ),
            ),
        },
        _ => None,
    }
}

pub fn step_conv_integer(env: &ExecutionEnv, node: &NodeIr) -> (r: Result<Work>)
    ensures
        works(r, conv_integer_step(*env, *node)),
{
    let (x, w): (Vec<i64>, Vec<i64>) = match (input_shape(env, node, 0), input_shape(env, node, 1)) {
        (Some(x), Some(w)) => (x, w),
        _ => {
            return refused();
        },
    };
    match conv_geometry(window_attrs(node), x.as_slice(), w.as_slice()) {
        Err(e) => Err(e),
        Ok(g) => {
            let mut wants: Vec<(usize, bool)> = vec![(0, false), (1, false)];
            assert(wants@ =~= seq![(0usize, false), (1usize, false)]);
            if node.has_input(2) {
                wants.push((2, false));
            }
            if node.has_input(3) {
                wants.push((3, false));
            }
            assert(wants@ == zero_wants(*node));
            match first_missing(env, node, &wants) {
                Some((i, f)) => Ok(Work::Place(i, f)),
                None => {
                    let x_signed: bool = match input_dtype(env, node, 0) {
                        Some(d) => d == INT8,
                        None => false,
                    };
                    let w_signed: bool = match input_dtype(env, node, 1) {
                        Some(d) => d == INT8,
                        None => false,
                    };
                    Ok(
                        Work::ConvInteger(
                            g,
                            IntOperands {
                                x_signed,
                                w_signed,
                                x_zero: node.has_input(2),
                                w_zero: node.has_input(3),
                                w_constant: env.is_initializer(node.inputs[1].as_str()),
                            },
                        ),
                    )
                },
            }
        },
    }
}

// --- plans that only need shapes --------------------------------------------------------

/// A plan, once the inputs are on the device.
pub open spec fn plan_then(
    env: ExecutionEnv,
    node: NodeIr,
    p: Option<PlanView>,
    wants: Seq<(usize, bool)>,
) -> Option<WorkView> {
    match p {
        None => None,
        Some(v) => placed_then(env, node, wants, Some(WorkView::Plan(v))),
    }
}

fn plan_after(
    env: &ExecutionEnv,
    node: &NodeIr,
    p: Result<Plan>,
    wants: Vec<(usize, bool)>,
    Ghost(s): Ghost<Option<PlanView>>,
) -> (r: Result<Work>)
    requires
        planned(p, s),
    ensures
        works(r, plan_then(*env, *node, s, wants@)),
{
    match p {
        Err(e) => Err(e),
        Ok(v) => match first_missing(env, node, &wants) {
            Some((i, f)) => Ok(Work::Place(i, f)),
            None => Ok(Work::Plan(v)),
        },
    }
}

pub open spec fn pool_step(env: ExecutionEnv, node: NodeIr, kind: PoolKind) -> Option<WorkView> {
    match shape_in(env, node, 0) {
        Some(x) => plan_then(env, node, pool_of(node, kind, x), seq![(0usize, true)]),
        None => None,
    }
}

pub fn step_pool(env: &ExecutionEnv, node: &NodeIr, kind: PoolKind) -> (r: Result<Work>)
    ensures
        works(r, pool_step(*env, *node, kind)),
{
    match input_shape(env, node, 0) {
        Some(x) => {
            let wants: Vec<(usize, bool)> = vec![(0, true)];
            assert(wants@ =~= seq![(0usize, true)]);
            let ghost want = pool_of(*node, kind, x@);
            plan_after(env, node, pool(node, kind, x.as_slice()), wants, Ghost(want))
        },
        None => refused(),
    }
}

pub open spec fn grid_sample_step(env: ExecutionEnv, node: NodeIr) -> Option<WorkView> {
    match (shape_in(env, node, 0), shape_in(env, node, 1)) {
        (Some(x), Some(g)) => plan_then(
            env,
            node,
            grid_sample_of(node, x, g),
            seq![(0usize, true), (1usize, true)],
        ),
        _ => None,
    }
}

pub fn step_grid_sample(env: &ExecutionEnv, node: &NodeIr) -> (r: Result<Work>)
    ensures
        works(r, grid_sample_step(*env, *node)),
{
    match (input_shape(env, node, 0), input_shape(env, node, 1)) {
        (Some(x), Some(g)) => {
            let wants: Vec<(usize, bool)> = vec![(0, true), (1, true)];
            assert(wants@ =~= seq![(0usize, true), (1usize, true)]);
            let ghost want = grid_sample_of(*node, x@, g@);
            plan_after(
                env,
                node,
                grid_sample(node, x.as_slice(), g.as_slice()),
                wants,
                Ghost(want),
            )
        },
        _ => refused(),
    }
}

/// The inputs of a dequantization.
pub open spec fn dequantize_wants(node: NodeIr) -> Seq<(usize, bool)> {
    if node.given(2) {
        seq![(0usize, false), (1usize, true), (2usize, false)]
    } else {
        seq![(0usize, false), (1usize, true)]
    }
}

pub open spec fn dequantize_step(env: ExecutionEnv, node: NodeIr) -> Option<WorkView> {
    match (shape_in(env, node, 0), shape_in(env, node, 1), dtype_in(env, node, 0)) {
        (Some(x), Some(s), Some(dtype)) => plan_then(
            env,
            node,
            dequantize_plan_of(node, x, dtype, s, node.given(2)),
            dequantize_wants(node),
        ),
        _ => None,
    }
}

pub fn step_dequantize(env: &ExecutionEnv, node: &NodeIr) -> (r: Result<Work>)
    ensures
        works(r, dequantize_step(*env, *node)),
{
    match (input_shape(env, node, 0), input_shape(env, node, 1), input_dtype(env, node, 0)) {
        (Some(x), Some(s), Some(dtype)) => {
            let has_zero: bool = node.has_input(2);
            let wants: Vec<(usize, bool)> = if has_zero {
                vec![(0, false), (1, true), (2, false)]
            } else {
                vec![(0, false), (1, true)]
            };
            assert(wants@ =~= dequantize_wants(*node));
            let ghost want = dequantize_plan_of(*node, x@, dtype, s@, has_zero);
            plan_after(
                env,
                node,
                dequantize_linear(node, x, dtype, s.as_slice(), has_zero),
                wants,
                Ghost(want),
            )
        },
        _ => refused(),
    }
}

/// The inputs of a quantization.
pub open spec fn quantize_wants(node: NodeIr) -> Seq<(usize, bool)> {
    if node.given(2) {
        seq![(0usize, true), (1usize, true), (2usize, false)]
    } else {
        seq![(0usize, true), (1usize, true)]
    }
}

pub open spec fn quantize_step(env: ExecutionEnv, node: NodeIr) -> Option<WorkView> {
    let zero = if node.given(2) {
        dtype_in(env, node, 2)
    } else {
        None
    };
    match (shape_in(env, node, 0), shape_in(env, node, 1)) {
        (Some(x), Some(s)) => if node.given(2) && zero is None {
            None
        } else {
            plan_then(env, node, quantize_plan_of(node, x, s, zero), quantize_wants(node))
        },
        _ => None,
    }
}

pub fn step_quantize(env: &ExecutionEnv, node: &NodeIr) -> (r: Result<Work>)
    ensures
        works(r, quantize_step(*env, *node)),
{
    match (input_shape(env, node, 0), input_shape(env, node, 1)) {
        (Some(x), Some(s)) => {
            let has_zero: bool = node.has_input(2);
            let zero: Option<i32> = if has_zero {
                input_dtype(env, node, 2)
            } else {
                None
            };
            if has_zero && zero.is_none() {
                return refused();
            }
            let wants: Vec<(usize, bool)> = if has_zero {
                vec![(0, true), (1, true), (2, false)]
            } else {
                vec![(0, true), (1, true)]
            };
            assert(wants@ =~= quantize_wants(*node));
            let ghost want = quantize_plan_of(*node, x@, s@, zero);
            plan_after(
                env,
                node,
                quantize_linear(node, x, s.as_slice(), zero),
                wants,
                Ghost(want),
            )
        },
        _ => refused(),
    }
}

// --- Resize -----------------------------------------------------------------------------

/// The elements of an optional input; nothing where it is missing.
pub open spec fn optional_floats(
    env: ExecutionEnv,
    fetched: NameMap<HostTensor>,
    node: NodeIr,
    i: int,
) -> ElementsView<u32> {
    if node.given(i) {
        floats_in(env, fetched, node, i)
    } else {
        ElementsView::Here(Seq::empty())
    }
}

fn read_optional(env: &ExecutionEnv, fetched: &NameMap<HostTensor>, node: &NodeIr, i: usize) -> (r: Elements<
    u32,
>)
    ensures
        r@ == optional_floats(*env, *fetched, *node, i as int),
{
    if node.has_input(i) {
        read_floats(env, fetched, node, i)
    } else {
        let none: Vec<u32> = Vec::new();
        assert(none@ =~= Seq::empty());
        Elements::Here(none)
    }
}

pub open spec fn resize_step(
    env: ExecutionEnv,
    fetched: NameMap<HostTensor>,
    node: NodeIr,
) -> Option<WorkView> {
    match shape_in(env, node, 0) {
        None => None,
        Some(x) => match optional_floats(env, fetched, node, 2) {
            ElementsView::Refused => None,
            ElementsView::Away => Some(WorkView::Fetch(2)),
            ElementsView::Here(scales) => match optional_floats(env, fetched, node, 3) {
                ElementsView::Refused => None,
                ElementsView::Away => Some(WorkView::Fetch(3)),
                ElementsView::Here(sizes) => match resize_sizes_of(x, Some(scales), Some(sizes)) {
                    None => None,
                    Some(z) => placed_then(
                        env,
                        node,
                        seq![(0usize, true)],
                        Some(WorkView::Resize(x, z)),
                    ),
                },
            },
        },
    }
}

pub fn step_resize(env: &ExecutionEnv, fetched: &NameMap<HostTensor>, node: &NodeIr) -> (r: Result<Work>)
    ensures
        works(r, resize_step(*env, *fetched, *node)),
{
    let x: Vec<i64> = match input_shape(env, node, 0) {
        Some(x) => x,
        None => {
            return refused();
        },
    };
    let scales: Vec<u32> = match read_optional(env, fetched, node, 2) {
        Elements::Here(v) => v,
        Elements::Away => {
            return Ok(Work::Fetch(2));
        },
        Elements::Refused => {
            return refused();
        },
    };
    let sizes: Vec<u32> = match read_optional(env, fetched, node, 3) {
        Elements::Here(v) => v,
        Elements::Away => {
            return Ok(Work::Fetch(3));
        },
        Elements::Refused => {
            return refused();
        },
    };
    match resize_sizes(x.as_slice(), Some(scales.as_slice()), Some(sizes.as_slice())) {
        Err(e) => Err(e),
        Ok(z) => {
            let wants: Vec<(usize, bool)> = vec![(0, true)];
            assert(wants@ =~= seq![(0usize, true)]);
            match first_missing(env, node, &wants) {
                Some((i, f)) => Ok(Work::Place(i, f)),
                None => Ok(Work::Resize(x, z)),
            }
        },
    }
}

// --- arithmetic -------------------------------------------------------------------------

/// Whether both operands are on the host and small: computing with them there spares reading
/// the result back.
pub open spec fn both_small(env: ExecutionEnv, node: NodeIr) -> bool {
    &&& env.host_bytes(node.input_name(0)) matches Some(a) && a <= SMALL_HOST_BYTES
    &&& env.host_bytes(node.input_name(1)) matches Some(b) && b <= SMALL_HOST_BYTES
}

/// Arithmetic on two operands: on the device for floating-point numbers, unless both are small
/// and on the host; otherwise on the host.
pub open spec fn binary_step(
    env: ExecutionEnv,
    fetched: NameMap<HostTensor>,
    node: NodeIr,
    op: BinOp,
) -> Option<WorkView> {
    match (dtype_in(env, node, 0), dtype_in(env, node, 1)) {
        (Some(da), Some(db)) => if da == FLOAT && db == FLOAT && !both_small(env, node) {
            placed_then(
                env,
                node,
                seq![(0usize, true), (1usize, true)],
                plan_work(
                    gpu_binary_of(
                        op,
                        device_in(env, node, 0)->Some_0.shape@,
                        device_in(env, node, 1)->Some_0.shape@,
                    ),
                ),
            )
        } else {
            match read_of(env, fetched, node, 0) {
                ReadView::Refused => None,
                ReadView::Away => Some(WorkView::Fetch(0)),
                ReadView::Here(a) => match read_of(env, fetched, node, 1) {
                    ReadView::Refused => None,
                    ReadView::Away => Some(WorkView::Fetch(1)),
                    ReadView::Here(b) => Some(WorkView::Arithmetic(op, a, b)),
                },
            }
        },
        _ => None,
    }
}

pub fn step_binary(
    env: &ExecutionEnv,
    fetched: &NameMap<HostTensor>,
    node: &NodeIr,
    op: BinOp,
) -> (r: Result<Work>)
    ensures
        works(r, binary_step(*env, *fetched, *node, op)),
{
    let (da, db): (i32, i32) = match (input_dtype(env, node, 0), input_dtype(env, node, 1)) {
        (Some(a), Some(b)) => (a, b),
        _ => {
            return refused();
        },
    };
    let small: bool = env.host_resident_small(node.inputs[0].as_str(), SMALL_HOST_BYTES)
        && env.host_resident_small(node.inputs[1].as_str(), SMALL_HOST_BYTES);
    if da == FLOAT && db == FLOAT && !small {
        let wants: Vec<(usize, bool)> = vec![(0, true), (1, true)];
        assert(wants@ =~= seq![(0usize, true), (1usize, true)]);
        match first_missing(env, node, &wants) {
            Some((i, f)) => {
                return Ok(Work::Place(i, f));
            },
            None => {},
        }
        assert(wants@[0].0 == 0 && wants@[1].0 == 1);
        return match (on_device(env, node, 0), on_device(env, node, 1)) {
            (Some(a), Some(b)) => as_plan(
                gpu_binary(op, a.shape.as_slice(), b.shape.as_slice()),
                Ghost(gpu_binary_of(op, a.shape@, b.shape@)),
            ),
            _ => refused(),
        };
    }
    let a: HostTensor = match read(env, fetched, node, 0) {
        Read::Here(t) => t,
        Read::Away => {
            return Ok(Work::Fetch(0));
        },
        Read::Refused => {
            return refused();
        },
    };
    let b: HostTensor = match read(env, fetched, node, 1) {
        Read::Here(t) => t,
        Read::Away => {
            return Ok(Work::Fetch(1));
        },
        Read::Refused => {
            return refused();
        },
    };
    Ok(Work::Arithmetic(op, a, b))
}

// --- Clip -------------------------------------------------------------------------------

pub open spec fn has_float(node: NodeIr, attr: Seq<char>) -> bool {
    node.attrs.has(attr) && node.attrs.at(attr) is Float
}

fn has_float_attr(node: &NodeIr, attr: &str) -> (r: bool)
    ensures
        r == has_float(*node, attr@),
{
    match node.attrs.get(attr) {
        Some(v) => v.as_f32().is_some(),
        None => false,
    }
}

/// The elements of the input that bounds one side, where no attribute does.
pub open spec fn limit_in(
    env: ExecutionEnv,
    fetched: NameMap<HostTensor>,
    node: NodeIr,
    i: int,
    attr: Seq<char>,
) -> ElementsView<u32> {
    if has_float(node, attr) {
        ElementsView::Here(Seq::empty())
    } else {
        optional_floats(env, fetched, node, i)
    }
}

fn read_limit(
    env: &ExecutionEnv,
    fetched: &NameMap<HostTensor>,
    node: &NodeIr,
    i: usize,
    attr: &str,
) -> (r: Elements<u32>)
    ensures
        r@ == limit_in(*env, *fetched, *node, i as int, attr@),
{
    if has_float_attr(node, attr) {
        let none: Vec<u32> = Vec::new();
        assert(none@ =~= Seq::empty());
        Elements::Here(none)
    } else {
        read_optional(env, fetched, node, i)
    }
}

/// The bound of one side for numbers that are not in floating point: an input, else an
/// attribute converted to the type of the value.
pub open spec fn bound_in(
    env: ExecutionEnv,
    fetched: NameMap<HostTensor>,
    node: NodeIr,
    i: int,
    attr: Seq<char>,
    dtype: i32,
) -> BoundView {
    if node.given(i) {
        match read_of(env, fetched, node, i) {
            ReadView::Here(t) => BoundView::Here(Some(t)),
            ReadView::Away => BoundView::Away,
            ReadView::Refused => BoundView::Refused,
        }
    } else if has_float(node, attr) {
        match returned_of(float_tensor(Seq::empty(), seq![node.float_attr(attr, 0)]), dtype) {
            Ok(t) => BoundView::Here(Some(t)),
            Err(_) => BoundView::Refused,
        }
    } else {
        BoundView::Here(None)
    }
}

pub enum BoundView {
    Here(Option<TensorView>),
    Away,
    Refused,
}

pub enum Bound {
    Here(Option<HostTensor>),
    Away,
    Refused,
}

impl View for Bound {
    type V = BoundView;

    open spec fn view(&self) -> BoundView {
        match *self {
            Bound::Here(t) => BoundView::Here(optional_view(t)),
            Bound::Away => BoundView::Away,
            Bound::Refused => BoundView::Refused,
        }
    }
}

fn read_bound(
    env: &ExecutionEnv,
    fetched: &NameMap<HostTensor>,
    node: &NodeIr,
    i: usize,
    attr: &str,
    dtype: i32,
) -> (r: Bound)
    ensures
        r@ == bound_in(*env, *fetched, *node, i as int, attr@, dtype),
{
    if node.has_input(i) {
        match read(env, fetched, node, i) {
            Read::Here(t) => Bound::Here(Some(t)),
            Read::Away => Bound::Away,
            Read::Refused => Bound::Refused,
        }
    } else if has_float_attr(node, attr) {
        let limit: Vec<u32> = vec![node.attr_f32(attr, 0)];
        assert(limit@ =~= seq![node.float_attr(attr@, 0)]);
        let none: Vec<i64> = Vec::new();
        assert(none@ =~= Seq::empty());
        let t = HostTensor::from_f32(none, limit.as_slice());
        match returned(&t, dtype) {
            Ok(c) => Bound::Here(Some(c)),
            Err(_) => Bound::Refused,
        }
    } else {
        Bound::Here(None)
    }
}

pub open spec fn clip_step(
    env: ExecutionEnv,
    fetched: NameMap<HostTensor>,
    node: NodeIr,
) -> Option<WorkView> {
    match dtype_in(env, node, 0) {
        None => None,
        Some(dtype) => if dtype != FLOAT {
            match read_of(env, fetched, node, 0) {
                ReadView::Refused => None,
                ReadView::Away => Some(WorkView::Fetch(0)),
                ReadView::Here(x) => match bound_in(env, fetched, node, 1, "min"@, dtype) {
                    BoundView::Refused => None,
                    BoundView::Away => Some(WorkView::Fetch(1)),
                    BoundView::Here(lo) => match bound_in(env, fetched, node, 2, "max"@, dtype) {
                        BoundView::Refused => None,
                        BoundView::Away => Some(WorkView::Fetch(2)),
                        BoundView::Here(hi) => Some(WorkView::Bounds(x, lo, hi)),
                    },
                },
            }
        } else {
            match limit_in(env, fetched, node, 1, "min"@) {
                ElementsView::Refused => None,
                ElementsView::Away => Some(WorkView::Fetch(1)),
                ElementsView::Here(lo) => match limit_in(env, fetched, node, 2, "max"@) {
                    ElementsView::Refused => None,
                    ElementsView::Away => Some(WorkView::Fetch(2)),
                    ElementsView::Here(hi) => match device_in(env, node, 0) {
                        None => Some(WorkView::Place(0, true)),
                        Some(d) => plan_work(
                            clip_of(node, d.shape@, d.elem_count as int, Some(lo), Some(hi)),
                        ),
                    },
                },
            }
        },
    }
}

pub fn step_clip(env: &ExecutionEnv, fetched: &NameMap<HostTensor>, node: &NodeIr) -> (r: Result<Work>)
    ensures
        works(r, clip_step(*env, *fetched, *node)),
{
    let dtype: i32 = match input_dtype(env, node, 0) {
        Some(d) => d,
        None => {
            return refused();
        },
    };
    if dtype != FLOAT {
        let x: HostTensor = match read(env, fetched, node, 0) {
            Read::Here(t) => t,
            Read::Away => {
                return Ok(Work::Fetch(0));
            },
            Read::Refused => {
                return refused();
            },
        };
        let lo: Option<HostTensor> = match read_bound(env, fetched, node, 1, "min", dtype) {
            Bound::Here(t) => t,
            Bound::Away => {
                return Ok(Work::Fetch(1));
            },
            Bound::Refused => {
                return refused();
            },
        };
        let hi: Option<HostTensor> = match read_bound(env, fetched, node, 2, "max", dtype) {
            Bound::Here(t) => t,
            Bound::Away => {
                return Ok(Work::Fetch(2));
            },
            Bound::Refused => {
                return refused();
            },
        };
        return Ok(Work::Bounds(x, lo, hi));
    }
    let lo: Vec<u32> = match read_limit(env, fetched, node, 1, "min") {
        Elements::Here(v) => v,
        Elements::Away => {
            return Ok(Work::Fetch(1));
        },
        Elements::Refused => {
            return refused();
        },
    };
    let hi: Vec<u32> = match read_limit(env, fetched, node, 2, "max") {
        Elements::Here(v) => v,
        Elements::Away => {
            return Ok(Work::Fetch(2));
        },
        Elements::Refused => {
            return refused();
        },
    };
    match on_device(env, node, 0) {
        None => Ok(Work::Place(0, true)),
        Some(d) => {
            let ghost want = clip_of(*node, d.shape@, d.elem_count as int, Some(lo@), Some(hi@));
            as_plan(
                clip(
                    node,
                    copy_dims(d.shape.as_slice()),
                    d.elem_count,
                    Some(lo.as_slice()),
                    Some(hi.as_slice()),
                ),
                Ghost(want),
            )
        },
    }
}

// --- reductions -------------------------------------------------------------------------

/// The same reduction on the host.
pub open spec fn host_reduction(kind: ReduceKind) -> RedOp {
    match kind {
        ReduceKind::Mean => RedOp::Mean,
        ReduceKind::Sum => RedOp::Sum,
        ReduceKind::Max => RedOp::Max,
        ReduceKind::Min => RedOp::Min,
    }
}

/// A reduction: on the device for floating-point numbers, otherwise on the host.
pub open spec fn reduce_step(
    env: ExecutionEnv,
    fetched: NameMap<HostTensor>,
    node: NodeIr,
    kind: ReduceKind,
) -> Option<WorkView> {
    match (shape_in(env, node, 0), dtype_in(env, node, 0)) {
        (Some(x), Some(dtype)) => match reduced_axis(node, x.len() as int) {
            None => None,
            Some(axis) => if dtype != FLOAT {
                match read_of(env, fetched, node, 0) {
                    ReadView::Refused => None,
                    ReadView::Away => Some(WorkView::Fetch(0)),
                    ReadView::Here(t) => result_work(
                        reduce_fits(t, axis, host_reduction(kind)),
                        crate::host_ops::scan::reduce_of(
                            t,
                            axis,
                            host_reduction(kind),
                            node.int_attr("keepdims"@, 1) != 0,
                        ),
                    ),
                }
            } else {
                match device_in(env, node, 0) {
                    None => Some(WorkView::Place(0, true)),
                    Some(d) => plan_work(reduce_of(node, kind, x, d.elem_count as int)),
                }
            },
        },
        _ => None,
    }
}

pub fn step_reduce(
    env: &ExecutionEnv,
    fetched: &NameMap<HostTensor>,
    node: &NodeIr,
    kind: ReduceKind,
) -> (r: Result<Work>)
    ensures
        works(r, reduce_step(*env, *fetched, *node, kind)),
{
    let (x, dtype): (Vec<i64>, i32) = match (input_shape(env, node, 0), input_dtype(env, node, 0)) {
        (Some(x), Some(d)) => (x, d),
        _ => {
            return refused();
        },
    };
    let axis: usize = match reduce_axis(node, x.len()) {
        Ok(a) => a,
        Err(e) => {
            return Err(e);
        },
    };
    if dtype != FLOAT {
        let op: RedOp = match kind {
            ReduceKind::Mean => RedOp::Mean,
            ReduceKind::Sum => RedOp::Sum,
            ReduceKind::Max => RedOp::Max,
            ReduceKind::Min => RedOp::Min,
        };
        let keepdims: bool = node.attr_i64("keepdims", 1) != 0;
        return match read(env, fetched, node, 0) {
            Read::Here(t) => if reduce_ready(&t, axis, op) {
                as_result(
                    crate::host_ops::scan::reduce(&t, axis, op, keepdims),
                    Ghost(crate::host_ops::scan::reduce_of(t@, axis as int, op, keepdims)),
                )
            } else {
                refused()
            },
            Read::Away => Ok(Work::Fetch(0)),
            Read::Refused => refused(),
        };
    }
    match on_device(env, node, 0) {
        None => Ok(Work::Place(0, true)),
        Some(d) => {
            let ghost want = reduce_of(*node, kind, x@, d.elem_count as int);
            as_plan(reduce(node, kind, x, d.elem_count), Ghost(want))
        },
    }
}

} // verus!
