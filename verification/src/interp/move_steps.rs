//! What the operators that move elements need.

use crate::cache::KernelCache;
use crate::error::Result;
use crate::execution::ExecutionEnv;
use crate::graph::{NodeIr, TensorView};
use crate::host_ops::fill::pad_of;
use crate::host_ops::gather::{gather_of, gather_sound};
use crate::host_ops::ready::{gather_ready, pad_fits, pad_ready};
use crate::host_ops::select::{where_of, where_op};
use crate::host_ops::{cast, cast_of, copy_dims, int_tensor, ints_of, HostTensor, FLOAT};
use crate::interp::elementwise::{cast_device, casts_on_device, device_cast};
use crate::interp::gather::{gather_device, gather_plan_of};
use crate::interp::layout::{
    pad_device, pad_plan_of, where_device, where_plan_of, where_shape, where_shape_of,
};
use crate::interp::reshape::{
    flatten, flatten_of, meta_reshape_out, reshape_of, reshaped_copy_of, resolve_reshape, shape_op,
    shape_part, squeeze, squeeze_of, unsqueeze, unsqueeze_of,
};
use crate::interp::steps::{first_missing, placed_then};
use crate::interp::transpose::{
    host_transpose, kept_key, kept_transpose_of, perm_of, route_of, transpose_cached_initializer,
    transpose_device, transpose_perm, transpose_plan_of, transpose_route, transposed_key,
    transposed_of, Route,
};
use crate::interp::window::section;
use crate::interp::work::{
    as_plan, as_result, device_in, dtype_in, floats_in, input_dtype, input_shape, ints_in,
    on_device, one_result, plan_work, read, read_floats, read_ints, read_of, refused, result_work,
    shape_in, works, Elements, ElementsView, Read, ReadView, Work, WorkView,
};
use crate::names::NameMap;
use crate::text;
use vstd::prelude::*;

verus! {

// --- new shapes -------------------------------------------------------------------------

/// The first input with a new shape, where it is.
pub open spec fn moved(
    env: ExecutionEnv,
    fetched: NameMap<HostTensor>,
    node: NodeIr,
    shape: Option<Seq<i64>>,
) -> Option<WorkView> {
    match shape {
        None => None,
        Some(s) => match device_in(env, node, 0) {
            Some(d) => plan_work(reshaped_copy_of(d.dtype, d.elem_count as int, s)),
            None => match read_of(env, fetched, node, 0) {
                ReadView::Refused => None,
                ReadView::Away => Some(WorkView::Fetch(0)),
                ReadView::Here(t) => Some(WorkView::Results(seq![TensorView { shape: s, ..t }])),
            },
        },
    }
}

fn step_moved(env: &ExecutionEnv, fetched: &NameMap<HostTensor>, node: &NodeIr, shape: Vec<i64>) -> (r: Result<
    Work,
>)
    ensures
        works(r, moved(*env, *fetched, *node, Some(shape@))),
{
    match on_device(env, node, 0) {
        Some(d) => {
            let ghost want = reshaped_copy_of(d.dtype, d.elem_count as int, shape@);
            as_plan(meta_reshape_out(d.dtype, d.elem_count, shape), Ghost(want))
        },
        None => match read(env, fetched, node, 0) {
            Read::Refused => refused(),
            Read::Away => Ok(Work::Fetch(0)),
            Read::Here(t) => Ok(one_result(HostTensor { dtype: t.dtype, shape, data: t.data })),
        },
    }
}

pub open spec fn shape_step(env: ExecutionEnv, node: NodeIr) -> Option<WorkView> {
    match shape_in(env, node, 0) {
        None => None,
        Some(s) => Some(
            WorkView::Results(
                seq![int_tensor(seq![shape_part(node, s).len() as i64], shape_part(node, s))],
            ),
        ),
    }
}

pub fn step_shape(env: &ExecutionEnv, node: &NodeIr) -> (r: Result<Work>)
    ensures
        works(r, shape_step(*env, *node)),
{
    match input_shape(env, node, 0) {
        None => refused(),
        Some(s) => Ok(one_result(shape_op(node, s.as_slice()))),
    }
}

pub open spec fn reshape_step(
    env: ExecutionEnv,
    fetched: NameMap<HostTensor>,
    node: NodeIr,
) -> Option<WorkView> {
    match ints_in(env, fetched, node, 1) {
        ElementsView::Refused => None,
        ElementsView::Away => Some(WorkView::Fetch(1)),
        ElementsView::Here(target) => match shape_in(env, node, 0) {
            None => None,
            Some(s) => moved(env, fetched, node, reshape_of(s, target)),
        },
    }
}

pub fn step_reshape(env: &ExecutionEnv, fetched: &NameMap<HostTensor>, node: &NodeIr) -> (r: Result<Work>)
    ensures
        works(r, reshape_step(*env, *fetched, *node)),
{
    let target: Vec<i64> = match read_ints(env, fetched, node, 1) {
        Elements::Refused => {
            return refused();
        },
        Elements::Away => {
            return Ok(Work::Fetch(1));
        },
        Elements::Here(v) => v,
    };
    match input_shape(env, node, 0) {
        None => refused(),
        Some(s) => match resolve_reshape(s.as_slice(), target.as_slice()) {
            Err(e) => Err(e),
            Ok(shape) => step_moved(env, fetched, node, shape),
        },
    }
}

pub open spec fn flatten_step(
    env: ExecutionEnv,
    fetched: NameMap<HostTensor>,
    node: NodeIr,
) -> Option<WorkView> {
    match shape_in(env, node, 0) {
        None => None,
        Some(s) => moved(env, fetched, node, flatten_of(node, s)),
    }
}

pub fn step_flatten(env: &ExecutionEnv, fetched: &NameMap<HostTensor>, node: &NodeIr) -> (r: Result<Work>)
    ensures
        works(r, flatten_step(*env, *fetched, *node)),
{
    match input_shape(env, node, 0) {
        None => refused(),
        Some(s) => match flatten(node, s.as_slice()) {
            Err(e) => Err(e),
            Ok(shape) => step_moved(env, fetched, node, shape),
        },
    }
}

/// The axes of the second input, else of an attribute.
pub open spec fn axes_in(
    env: ExecutionEnv,
    fetched: NameMap<HostTensor>,
    node: NodeIr,
) -> ElementsView<i64> {
    if node.given(1) {
        ints_in(env, fetched, node, 1)
    } else {
        match node.ints_attr("axes"@) {
            Some(a) => ElementsView::Here(a),
            None => ElementsView::Refused,
        }
    }
}

/// The axes of the second input, else of an attribute.
pub fn axes_arg(env: &ExecutionEnv, fetched: &NameMap<HostTensor>, node: &NodeIr) -> (r: Elements<i64>)
    ensures
        r@ == axes_in(*env, *fetched, *node),
{
    if node.has_input(1) {
        read_ints(env, fetched, node, 1)
    } else {
        match node.attr_ints("axes") {
            Some(a) => {
                let c = section(a, 0, a.len());
                assert(c@ =~= a@);
                Elements::Here(c)
            },
            None => Elements::Refused,
        }
    }
}

pub open spec fn unsqueeze_step(
    env: ExecutionEnv,
    fetched: NameMap<HostTensor>,
    node: NodeIr,
) -> Option<WorkView> {
    match axes_in(env, fetched, node) {
        ElementsView::Refused => None,
        ElementsView::Away => Some(WorkView::Fetch(1)),
        ElementsView::Here(axes) => match shape_in(env, node, 0) {
            None => None,
            Some(s) => if s.len() + axes.len() <= usize::MAX {
                moved(env, fetched, node, unsqueeze_of(s, axes))
            } else {
                None
            },
        },
    }
}

pub fn step_unsqueeze(env: &ExecutionEnv, fetched: &NameMap<HostTensor>, node: &NodeIr) -> (r: Result<Work>)
    ensures
        works(r, unsqueeze_step(*env, *fetched, *node)),
{
    let axes: Vec<i64> = match axes_arg(env, fetched, node) {
        Elements::Refused => {
            return refused();
        },
        Elements::Away => {
            return Ok(Work::Fetch(1));
        },
        Elements::Here(v) => v,
    };
    match input_shape(env, node, 0) {
        None => refused(),
        Some(s) => {
            if s.len().checked_add(axes.len()).is_none() {
                return refused();
            }
            match unsqueeze(s.as_slice(), axes.as_slice()) {
                Err(e) => Err(e),
                Ok(shape) => step_moved(env, fetched, node, shape),
            }
        },
    }
}

pub open spec fn squeeze_step(
    env: ExecutionEnv,
    fetched: NameMap<HostTensor>,
    node: NodeIr,
) -> Option<WorkView> {
    match shape_in(env, node, 0) {
        None => None,
        Some(s) => if node.given(1) {
            match ints_in(env, fetched, node, 1) {
                ElementsView::Refused => None,
                ElementsView::Away => Some(WorkView::Fetch(1)),
                ElementsView::Here(a) => moved(
                    env,
                    fetched,
                    node,
                    Some(squeeze_of(s, Some(a), s.len() as int)),
                ),
            }
        } else {
            moved(
                env,
                fetched,
                node,
                Some(squeeze_of(s, node.ints_attr("axes"@), s.len() as int)),
            )
        },
    }
}

pub fn step_squeeze(env: &ExecutionEnv, fetched: &NameMap<HostTensor>, node: &NodeIr) -> (r: Result<Work>)
    ensures
        works(r, squeeze_step(*env, *fetched, *node)),
{
    let s: Vec<i64> = match input_shape(env, node, 0) {
        None => {
            return refused();
        },
        Some(s) => s,
    };
    if node.has_input(1) {
        return match read_ints(env, fetched, node, 1) {
            Elements::Refused => refused(),
            Elements::Away => Ok(Work::Fetch(1)),
            Elements::Here(a) => step_moved(
                env,
                fetched,
                node,
                squeeze(s.as_slice(), Some(a.as_slice())),
            ),
        };
    }
    let shape = match node.attr_ints("axes") {
        Some(a) => squeeze(s.as_slice(), Some(a)),
        None => squeeze(s.as_slice(), None),
    };
    step_moved(env, fetched, node, shape)
}

// --- Cast -------------------------------------------------------------------------------

pub open spec fn cast_step(
    env: ExecutionEnv,
    fetched: NameMap<HostTensor>,
    node: NodeIr,
) -> Option<WorkView> {
    match (node.opt_int_attr("to"@), dtype_in(env, node, 0)) {
        (Some(v), Some(from)) => {
            let to = v as i32;
            match device_in(env, node, 0) {
                Some(d) if casts_on_device(from, to) => plan_work(
                    crate::interp::elementwise::cast_of(from, to, d.shape@, d.elem_count as int),
                ),
                _ => match read_of(env, fetched, node, 0) {
                    ReadView::Refused => None,
                    ReadView::Away => Some(WorkView::Fetch(0)),
                    ReadView::Here(t) => result_work(true, cast_of(t, to)),
                },
            }
        },
        _ => None,
    }
}

pub fn step_cast(env: &ExecutionEnv, fetched: &NameMap<HostTensor>, node: &NodeIr) -> (r: Result<Work>)
    ensures
        works(r, cast_step(*env, *fetched, *node)),
{
    let (v, from): (i64, i32) = match (node.attr_opt_i64("to"), input_dtype(env, node, 0)) {
        (Some(v), Some(f)) => (v, f),
        _ => {
            return refused();
        },
    };
    #[verifier::truncate]
    let to: i32 = v as i32;
    if device_cast(from, to) {
        match on_device(env, node, 0) {
            Some(d) => {
                let ghost want = crate::interp::elementwise::cast_of(
                    from,
                    to,
                    d.shape@,
                    d.elem_count as int,
                );
                return as_plan(
                    cast_device(from, to, copy_dims(d.shape.as_slice()), d.elem_count),
                    Ghost(want),
                );
            },
            None => {},
        }
    }
    match read(env, fetched, node, 0) {
        Read::Refused => refused(),
        Read::Away => Ok(Work::Fetch(0)),
        Read::Here(t) => as_result(cast(&t, to), Ghost(cast_of(t@, to))),
    }
}

// --- Transpose --------------------------------------------------------------------------

pub open spec fn kept_step(
    env: ExecutionEnv,
    cache: KernelCache,
    node: NodeIr,
    dtype: i32,
    shape: Seq<i64>,
) -> Option<WorkView> {
    let name = node.input_name(0);
    if shape[0] > usize::MAX || shape[1] > usize::MAX {
        None
    } else if cache.packed.has(kept_key(name, dtype, shape)) {
        plan_work(kept_transpose_of(name, dtype, shape, None))
    } else {
        let t = TensorView { dtype, shape, data: env.initializers.at(name).data@ };
        match transposed_of(t, seq![1usize, 0usize]) {
            None => None,
            Some(r) => plan_work(kept_transpose_of(name, dtype, shape, Some(r.data))),
        }
    }
}

pub open spec fn transpose_step(
    env: ExecutionEnv,
    cache: KernelCache,
    fetched: NameMap<HostTensor>,
    node: NodeIr,
) -> Option<WorkView> {
    match (shape_in(env, node, 0), dtype_in(env, node, 0)) {
        (Some(s), Some(dtype)) => match perm_of(node, s.len() as int) {
            None => None,
            Some(perm) => match route_of(
                device_in(env, node, 0) is Some,
                env.initializers.has(node.input_name(0)),
                dtype,
                s,
                perm,
            ) {
                Route::Device => plan_work(transpose_plan_of(dtype, s, perm)),
                Route::Kept => kept_step(env, cache, node, dtype, s),
                Route::Host => match read_of(env, fetched, node, 0) {
                    ReadView::Refused => None,
                    ReadView::Away => Some(WorkView::Fetch(0)),
                    ReadView::Here(t) => match transposed_of(t, perm) {
                        Some(r) => Some(WorkView::Results(seq![r])),
                        None => None,
                    },
                },
            },
        },
        _ => None,
    }
}

fn step_kept(
    env: &ExecutionEnv,
    cache: &KernelCache,
    node: &NodeIr,
    dtype: i32,
    shape: Vec<i64>,
) -> (r: Result<Work>)
    requires
        node.inputs@.len() > 0,
        env.initializers.has(node.input_name(0)),
        shape@.len() == 2,
        shape@[0] > 0,
        shape@[1] > 0,
    ensures
        works(r, kept_step(*env, *cache, *node, dtype, shape@)),
{
    let name = node.inputs[0].as_str();
    let (rows, cols): (i64, i64) = (shape[0], shape[1]);
    if rows as u64 > usize::MAX as u64 || cols as u64 > usize::MAX as u64 {
        return refused();
    }
    let key = transposed_key(name, dtype, rows as usize, cols as usize);
    assert(key@ == kept_key(name@, dtype, shape@));
    if cache.packed_weight_cached(&key).is_some() {
        let ghost want = kept_transpose_of(name@, dtype, shape@, None);
        return as_plan(
            transpose_cached_initializer(name, dtype, shape.as_slice(), None),
            Ghost(want),
        );
    }
    match env.initializer(name) {
        None => refused(),
        Some(i) => {
            let t = HostTensor {
                dtype,
                shape: copy_dims(shape.as_slice()),
                data: i.data.clone(),
            };
            let perm: Vec<usize> = vec![1, 0];
            assert(perm@ =~= seq![1usize, 0usize]);
            match host_transpose(&t, perm.as_slice()) {
                Err(e) => Err(e),
                Ok(r) => {
                    let ghost want = kept_transpose_of(name@, dtype, shape@, Some(r.data@));
                    as_plan(
                        transpose_cached_initializer(name, dtype, shape.as_slice(), Some(r.data)),
                        Ghost(want),
                    )
                },
            }
        },
    }
}

pub fn step_transpose(
    env: &ExecutionEnv,
    cache: &KernelCache,
    fetched: &NameMap<HostTensor>,
    node: &NodeIr,
) -> (r: Result<Work>)
    ensures
        works(r, transpose_step(*env, *cache, *fetched, *node)),
{
    let (s, dtype): (Vec<i64>, i32) = match (input_shape(env, node, 0), input_dtype(env, node, 0)) {
        (Some(s), Some(d)) => (s, d),
        _ => {
            return refused();
        },
    };
    let perm: Vec<usize> = match transpose_perm(node, s.len()) {
        Ok(p) => p,
        Err(e) => {
            return Err(e);
        },
    };
    let resident: bool = on_device(env, node, 0).is_some();
    let constant: bool = env.is_initializer(node.inputs[0].as_str());
    match transpose_route(resident, constant, dtype, s.as_slice(), perm.as_slice()) {
        Route::Device => {
            let ghost want = transpose_plan_of(dtype, s@, perm@);
            as_plan(transpose_device(dtype, s.as_slice(), perm.as_slice()), Ghost(want))
        },
        Route::Kept => step_kept(env, cache, node, dtype, s),
        Route::Host => match read(env, fetched, node, 0) {
            Read::Refused => refused(),
            Read::Away => Ok(Work::Fetch(0)),
            Read::Here(t) => match host_transpose(&t, perm.as_slice()) {
                Ok(r) => Ok(one_result(r)),
                Err(e) => Err(e),
            },
        },
    }
}

// --- Gather -----------------------------------------------------------------------------

pub open spec fn gather_step(
    env: ExecutionEnv,
    fetched: NameMap<HostTensor>,
    node: NodeIr,
) -> Option<WorkView> {
    let axis = node.int_attr("axis"@, 0);
    match (shape_in(env, node, 0), dtype_in(env, node, 0)) {
        (Some(s), Some(dtype)) => if dtype == FLOAT {
            match read_of(env, fetched, node, 1) {
                ReadView::Refused => None,
                ReadView::Away => Some(WorkView::Fetch(1)),
                ReadView::Here(t) => match ints_of(t) {
                    Err(_) => None,
                    Ok(v) => match device_in(env, node, 0) {
                        None => Some(WorkView::Place(0, true)),
                        Some(_) => plan_work(gather_plan_of(s, axis, t.shape, v)),
                    },
                },
            }
        } else {
            match read_of(env, fetched, node, 0) {
                ReadView::Refused => None,
                ReadView::Away => Some(WorkView::Fetch(0)),
                ReadView::Here(d) => match read_of(env, fetched, node, 1) {
                    ReadView::Refused => None,
                    ReadView::Away => Some(WorkView::Fetch(1)),
                    ReadView::Here(i) => result_work(
                        d.shape.len() <= i64::MAX && gather_sound(d, i, axis as int),
                        gather_of(d, i, axis as int),
                    ),
                },
            }
        },
        _ => None,
    }
}

pub fn step_gather(env: &ExecutionEnv, fetched: &NameMap<HostTensor>, node: &NodeIr) -> (r: Result<Work>)
    ensures
        works(r, gather_step(*env, *fetched, *node)),
{
    let axis: i64 = node.attr_i64("axis", 0);
    let (s, dtype): (Vec<i64>, i32) = match (input_shape(env, node, 0), input_dtype(env, node, 0)) {
        (Some(s), Some(d)) => (s, d),
        _ => {
            return refused();
        },
    };
    if dtype == FLOAT {
        return match read(env, fetched, node, 1) {
            Read::Refused => refused(),
            Read::Away => Ok(Work::Fetch(1)),
            Read::Here(t) => match t.to_i64() {
                Err(_) => refused(),
                Ok(v) => match on_device(env, node, 0) {
                    None => Ok(Work::Place(0, true)),
                    Some(_) => {
                        let ghost want = gather_plan_of(s@, axis, t.shape@, v@);
                        as_plan(
                            gather_device(s.as_slice(), axis, t.shape.as_slice(), v.as_slice()),
                            Ghost(want),
                        )
                    },
                },
            },
        };
    }
    match read(env, fetched, node, 0) {
        Read::Refused => refused(),
        Read::Away => Ok(Work::Fetch(0)),
        Read::Here(d) => match read(env, fetched, node, 1) {
            Read::Refused => refused(),
            Read::Away => Ok(Work::Fetch(1)),
            Read::Here(i) => if gather_ready(&d, &i, axis) {
                as_result(
                    crate::host_ops::gather::gather(&d, &i, axis),
                    Ghost(gather_of(d@, i@, axis as int)),
                )
            } else {
                refused()
            },
        },
    }
}

// --- Where ------------------------------------------------------------------------------

pub open spec fn where_step(
    env: ExecutionEnv,
    fetched: NameMap<HostTensor>,
    node: NodeIr,
) -> Option<WorkView> {
    match (shape_in(env, node, 0), shape_in(env, node, 1), shape_in(env, node, 2), dtype_in(env, node, 1)) {
        (Some(c), Some(x), Some(y), Some(dtype)) => match where_shape_of(c, x, y) {
            None => None,
            Some(out) => if dtype == FLOAT {
                match where_plan_of(c, x, y) {
                    None => None,
                    Some(p) => placed_then(
                        env,
                        node,
                        seq![(0usize, false), (1usize, true), (2usize, true)],
                        Some(WorkView::Plan(p)),
                    ),
                }
            } else {
                match read_of(env, fetched, node, 0) {
                    ReadView::Refused => None,
                    ReadView::Away => Some(WorkView::Fetch(0)),
                    ReadView::Here(hc) => match read_of(env, fetched, node, 1) {
                        ReadView::Refused => None,
                        ReadView::Away => Some(WorkView::Fetch(1)),
                        ReadView::Here(hx) => match read_of(env, fetched, node, 2) {
                            ReadView::Refused => None,
                            ReadView::Away => Some(WorkView::Fetch(2)),
                            ReadView::Here(hy) => result_work(true, where_of(hc, hx, hy, out)),
                        },
                    },
                }
            },
        },
        _ => None,
    }
}

pub fn step_where(env: &ExecutionEnv, fetched: &NameMap<HostTensor>, node: &NodeIr) -> (r: Result<Work>)
    ensures
        works(r, where_step(*env, *fetched, *node)),
{
    let (c, x, y): (Vec<i64>, Vec<i64>, Vec<i64>) = match (
        input_shape(env, node, 0),
        input_shape(env, node, 1),
        input_shape(env, node, 2),
    ) {
        (Some(c), Some(x), Some(y)) => (c, x, y),
        _ => {
            return refused();
        },
    };
    let dtype: i32 = match input_dtype(env, node, 1) {
        Some(d) => d,
        None => {
            return refused();
        },
    };
    let out: Vec<i64> = match where_shape(c.as_slice(), x.as_slice(), y.as_slice()) {
        Ok(o) => o,
        Err(e) => {
            return Err(e);
        },
    };
    if dtype == FLOAT {
        return match where_device(c.as_slice(), x.as_slice(), y.as_slice()) {
            Err(e) => Err(e),
            Ok(p) => {
                let wants: Vec<(usize, bool)> = vec![(0, false), (1, true), (2, true)];
                assert(wants@ =~= seq![(0usize, false), (1usize, true), (2usize, true)]);
                match first_missing(env, node, &wants) {
                    Some((i, f)) => Ok(Work::Place(i, f)),
                    None => Ok(Work::Plan(p)),
                }
            },
        };
    }
    match read(env, fetched, node, 0) {
        Read::Refused => refused(),
        Read::Away => Ok(Work::Fetch(0)),
        Read::Here(hc) => match read(env, fetched, node, 1) {
            Read::Refused => refused(),
            Read::Away => Ok(Work::Fetch(1)),
            Read::Here(hx) => match read(env, fetched, node, 2) {
                Read::Refused => refused(),
                Read::Away => Ok(Work::Fetch(2)),
                Read::Here(hy) => as_result(
                    where_op(&hc, &hx, &hy, out.as_slice()),
                    Ghost(where_of(hc@, hx@, hy@, out@)),
                ),
            },
        },
    }
}

// --- Pad --------------------------------------------------------------------------------

/// The value that pads floating-point numbers: the first element of the third input, or zero.
pub open spec fn pad_value(
    env: ExecutionEnv,
    fetched: NameMap<HostTensor>,
    node: NodeIr,
) -> ElementsView<u32> {
    if node.given(2) {
        match floats_in(env, fetched, node, 2) {
            ElementsView::Here(v) => ElementsView::Here(
                if v.len() > 0 {
                    seq![v[0]]
                } else {
                    seq![0u32]
                },
            ),
            e => e,
        }
    } else {
        ElementsView::Here(seq![0u32])
    }
}

/// The bytes that pad other elements: the third input, or none.
pub open spec fn pad_bytes(
    env: ExecutionEnv,
    fetched: NameMap<HostTensor>,
    node: NodeIr,
) -> ElementsView<u8> {
    if node.given(2) {
        match read_of(env, fetched, node, 2) {
            ReadView::Here(t) => ElementsView::Here(t.data),
            ReadView::Away => ElementsView::Away,
            ReadView::Refused => ElementsView::Refused,
        }
    } else {
        ElementsView::Here(Seq::empty())
    }
}

pub open spec fn pad_step(
    env: ExecutionEnv,
    fetched: NameMap<HostTensor>,
    node: NodeIr,
) -> Option<WorkView> {
    match (shape_in(env, node, 0), dtype_in(env, node, 0)) {
        (Some(s), Some(dtype)) => if node.str_attr("mode"@, "constant"@) != "constant"@ {
            None
        } else {
            match ints_in(env, fetched, node, 1) {
                ElementsView::Refused => None,
                ElementsView::Away => Some(WorkView::Fetch(1)),
                ElementsView::Here(pads) => if pads.len() != 2 * s.len() {
                    None
                } else {
                    padded_step(
                        env,
                        fetched,
                        node,
                        s,
                        dtype,
                        pads.take(s.len() as int),
                        pads.skip(s.len() as int),
                    )
                },
            }
        },
        _ => None,
    }
}

pub open spec fn padded_step(
    env: ExecutionEnv,
    fetched: NameMap<HostTensor>,
    node: NodeIr,
    s: Seq<i64>,
    dtype: i32,
    begins: Seq<i64>,
    ends: Seq<i64>,
) -> Option<WorkView> {
    if dtype == FLOAT {
        match pad_value(env, fetched, node) {
            ElementsView::Refused => None,
            ElementsView::Away => Some(WorkView::Fetch(2)),
            ElementsView::Here(v) => match device_in(env, node, 0) {
                None => Some(WorkView::Place(0, true)),
                Some(_) => plan_work(pad_plan_of(s, begins, ends, v[0])),
            },
        }
    } else {
        match read_of(env, fetched, node, 0) {
            ReadView::Refused => None,
            ReadView::Away => Some(WorkView::Fetch(0)),
            ReadView::Here(t) => match pad_bytes(env, fetched, node) {
                ElementsView::Refused => None,
                ElementsView::Away => Some(WorkView::Fetch(2)),
                ElementsView::Here(v) => result_work(
                    pad_fits(t, begins, ends),
                    pad_of(t, begins, ends, v),
                ),
            },
        }
    }
}

fn step_padded(
    env: &ExecutionEnv,
    fetched: &NameMap<HostTensor>,
    node: &NodeIr,
    s: Vec<i64>,
    dtype: i32,
    begins: Vec<i64>,
    ends: Vec<i64>,
) -> (r: Result<Work>)
    ensures
        works(r, padded_step(*env, *fetched, *node, s@, dtype, begins@, ends@)),
{
    if dtype == FLOAT {
        let value: u32 = if node.has_input(2) {
            match read_floats(env, fetched, node, 2) {
                Elements::Refused => {
                    return refused();
                },
                Elements::Away => {
                    return Ok(Work::Fetch(2));
                },
                Elements::Here(v) => if v.len() > 0 {
                    v[0]
                } else {
                    0
                },
            }
        } else {
            0
        };
        return match on_device(env, node, 0) {
            None => Ok(Work::Place(0, true)),
            Some(_) => {
                let ghost want = pad_plan_of(s@, begins@, ends@, value);
                as_plan(
                    pad_device(s.as_slice(), begins.as_slice(), ends.as_slice(), value),
                    Ghost(want),
                )
            },
        };
    }
    let t: HostTensor = match read(env, fetched, node, 0) {
        Read::Refused => {
            return refused();
        },
        Read::Away => {
            return Ok(Work::Fetch(0));
        },
        Read::Here(t) => t,
    };
    let value: Vec<u8> = if node.has_input(2) {
        match read(env, fetched, node, 2) {
            Read::Refused => {
                return refused();
            },
            Read::Away => {
                return Ok(Work::Fetch(2));
            },
            Read::Here(v) => v.data,
        }
    } else {
        let none: Vec<u8> = Vec::new();
        assert(none@ =~= Seq::empty());
        none
    };
    if pad_ready(&t, begins.as_slice(), ends.as_slice()) {
        as_result(
            crate::host_ops::fill::pad(&t, begins.as_slice(), ends.as_slice(), value.as_slice()),
            Ghost(pad_of(t@, begins@, ends@, value@)),
        )
    } else {
        refused()
    }
}

pub fn step_pad(env: &ExecutionEnv, fetched: &NameMap<HostTensor>, node: &NodeIr) -> (r: Result<Work>)
    ensures
        works(r, pad_step(*env, *fetched, *node)),
{
    let (s, dtype): (Vec<i64>, i32) = match (input_shape(env, node, 0), input_dtype(env, node, 0)) {
        (Some(s), Some(d)) => (s, d),
        _ => {
            return refused();
        },
    };
    if !text::same(node.attr_str("mode", "constant"), "constant") {
        return refused();
    }
    let pads: Vec<i64> = match read_ints(env, fetched, node, 1) {
        Elements::Refused => {
            return refused();
        },
        Elements::Away => {
            return Ok(Work::Fetch(1));
        },
        Elements::Here(v) => v,
    };
    let rank: usize = s.len();
    let n: usize = pads.len();
    if n % 2 != 0 || n / 2 != rank {
        return refused();
    }
    let begins = section(pads.as_slice(), 0, rank);
    let ends = section(pads.as_slice(), rank, n);
    assert(begins@ =~= pads@.take(s@.len() as int));
    assert(ends@ =~= pads@.skip(s@.len() as int));
    step_padded(env, fetched, node, s, dtype, begins, ends)
}

} // verus!
