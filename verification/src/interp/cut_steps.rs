//! What the operators that cut and join need.

use crate::error::Result;
use crate::execution::ExecutionEnv;
use crate::graph::{NodeIr, TensorView};
use crate::host_ops::join::{concat_of, views};
use crate::host_ops::ready::{
    concat_fits, concat_ready, slice_fits, slice_params_fit, slice_params_ready, slice_ready,
};
use crate::host_ops::select::{optional, slice, slice_of, slice_params, slice_params_of, Ranges};
use crate::host_ops::{HostTensor, FLOAT};
use crate::interp::gather::{concat_device, concat_plan_of, joined_views, Joined, JoinedView};
use crate::interp::layout::{
    part_shape, part_start, slice_device, slice_plan_of, split, split_of, split_sizes,
    split_sizes_of, split_start, unit_steps,
};
use crate::interp::steps::{first_missing, placed_then};
use crate::interp::window::{repeat, section};
use crate::interp::work::{
    as_plan, as_result, device_in, dtype_in, input_dtype, input_shape, ints_in, on_device,
    plan_work, read, read_ints, read_of, refused, result_work, shape_in, works, Elements,
    ElementsView, Read, ReadView, Work, WorkView,
};
use crate::names::NameMap;
use crate::num::in_range;
use vstd::prelude::*;

verus! {

// --- Slice ------------------------------------------------------------------------------

/// The elements of an input that may be left out.
pub open spec fn list_in(
    env: ExecutionEnv,
    fetched: NameMap<HostTensor>,
    node: NodeIr,
    i: int,
) -> ElementsView<i64> {
    if node.given(i) {
        ints_in(env, fetched, node, i)
    } else {
        ElementsView::Here(Seq::empty())
    }
}

/// The elements of an input, where it is given.
pub open spec fn where_given(node: NodeIr, i: int, v: Seq<i64>) -> Option<Seq<i64>> {
    if node.given(i) {
        Some(v)
    } else {
        None
    }
}

fn read_list(env: &ExecutionEnv, fetched: &NameMap<HostTensor>, node: &NodeIr, i: usize) -> (r: Elements<
    i64,
>)
    ensures
        r@ == list_in(*env, *fetched, *node, i as int),
{
    if node.has_input(i) {
        read_ints(env, fetched, node, i)
    } else {
        let none: Vec<i64> = Vec::new();
        assert(none@ =~= Seq::empty());
        Elements::Here(none)
    }
}

fn given_list<'a>(node: &NodeIr, i: usize, v: &'a Vec<i64>) -> (r: Option<&'a [i64]>)
    ensures
        optional(r) == where_given(*node, i as int, v@),
{
    if node.has_input(i) {
        Some(v.as_slice())
    } else {
        None
    }
}

/// What is left of a slice once its bounds are known.
pub open spec fn cut_step(
    env: ExecutionEnv,
    fetched: NameMap<HostTensor>,
    node: NodeIr,
    shape: Seq<i64>,
    dtype: i32,
    r: Ranges,
) -> Option<WorkView> {
    if dtype == FLOAT {
        match device_in(env, node, 0) {
            None => Some(WorkView::Place(0, true)),
            Some(_) => plan_work(slice_plan_of(shape, r.out, r.start, r.step)),
        }
    } else {
        match read_of(env, fetched, node, 0) {
            ReadView::Refused => None,
            ReadView::Away => Some(WorkView::Fetch(0)),
            ReadView::Here(t) => result_work(slice_fits(t, r), slice_of(t, r)),
        }
    }
}

/// A slice: starts, ends, axes and steps on the host first.
pub open spec fn slice_step(
    env: ExecutionEnv,
    fetched: NameMap<HostTensor>,
    node: NodeIr,
) -> Option<WorkView> {
    match (shape_in(env, node, 0), dtype_in(env, node, 0)) {
        (Some(shape), Some(dtype)) => match ints_in(env, fetched, node, 1) {
            ElementsView::Refused => None,
            ElementsView::Away => Some(WorkView::Fetch(1)),
            ElementsView::Here(starts) => match ints_in(env, fetched, node, 2) {
                ElementsView::Refused => None,
                ElementsView::Away => Some(WorkView::Fetch(2)),
                ElementsView::Here(ends) => match list_in(env, fetched, node, 3) {
                    ElementsView::Refused => None,
                    ElementsView::Away => Some(WorkView::Fetch(3)),
                    ElementsView::Here(axes) => match list_in(env, fetched, node, 4) {
                        ElementsView::Refused => None,
                        ElementsView::Away => Some(WorkView::Fetch(4)),
                        ElementsView::Here(steps) => bounded_step(
                            env,
                            fetched,
                            node,
                            shape,
                            dtype,
                            starts,
                            ends,
                            where_given(node, 3, axes),
                            where_given(node, 4, steps),
                        ),
                    },
                },
            },
        },
        _ => None,
    }
}

pub open spec fn bounded_step(
    env: ExecutionEnv,
    fetched: NameMap<HostTensor>,
    node: NodeIr,
    shape: Seq<i64>,
    dtype: i32,
    starts: Seq<i64>,
    ends: Seq<i64>,
    axes: Option<Seq<i64>>,
    steps: Option<Seq<i64>>,
) -> Option<WorkView> {
    if !slice_params_fit(shape, starts) {
        None
    } else {
        match slice_params_of(shape, starts, ends, axes, steps) {
            Err(_) => None,
            Ok(r) => cut_step(env, fetched, node, shape, dtype, r),
        }
    }
}

fn step_cut(
    env: &ExecutionEnv,
    fetched: &NameMap<HostTensor>,
    node: &NodeIr,
    shape: &[i64],
    dtype: i32,
    out: Vec<i64>,
    start: &[i64],
    step: &[i64],
) -> (r: Result<Work>)
    ensures
        works(
            r,
            cut_step(
                *env,
                *fetched,
                *node,
                shape@,
                dtype,
                (Ranges { out: out@, start: start@, step: step@ }),
            ),
        ),
{
    if dtype == FLOAT {
        return match on_device(env, node, 0) {
            None => Ok(Work::Place(0, true)),
            Some(_) => {
                let ghost want = slice_plan_of(shape@, out@, start@, step@);
                as_plan(slice_device(shape, out, start, step), Ghost(want))
            },
        };
    }
    match read(env, fetched, node, 0) {
        Read::Refused => refused(),
        Read::Away => Ok(Work::Fetch(0)),
        Read::Here(t) => if slice_ready(&t, out.as_slice(), start, step) {
            let ghost all = Ranges { out: out@, start: start@, step: step@ };
            as_result(slice(&t, out.as_slice(), start, step), Ghost(slice_of(t@, all)))
        } else {
            refused()
        },
    }
}

fn step_bounded(
    env: &ExecutionEnv,
    fetched: &NameMap<HostTensor>,
    node: &NodeIr,
    shape: &[i64],
    dtype: i32,
    starts: &[i64],
    ends: &[i64],
    axes: Option<&[i64]>,
    steps: Option<&[i64]>,
) -> (r: Result<Work>)
    ensures
        works(
            r,
            bounded_step(
                *env,
                *fetched,
                *node,
                shape@,
                dtype,
                starts@,
                ends@,
                optional(axes),
                optional(steps),
            ),
        ),
{
    if !slice_params_ready(shape, starts) {
        return refused();
    }
    match slice_params(shape, starts, ends, axes, steps) {
        Err(_) => refused(),
        Ok((out, st, sp)) => step_cut(
            env,
            fetched,
            node,
            shape,
            dtype,
            out,
            st.as_slice(),
            sp.as_slice(),
        ),
    }
}

pub fn step_slice(env: &ExecutionEnv, fetched: &NameMap<HostTensor>, node: &NodeIr) -> (r: Result<Work>)
    ensures
        works(r, slice_step(*env, *fetched, *node)),
{
    let (shape, dtype): (Vec<i64>, i32) = match (input_shape(env, node, 0), input_dtype(env, node, 0)) {
        (Some(s), Some(d)) => (s, d),
        _ => {
            return refused();
        },
    };
    let starts: Vec<i64> = match read_ints(env, fetched, node, 1) {
        Elements::Refused => {
            return refused();
        },
        Elements::Away => {
            return Ok(Work::Fetch(1));
        },
        Elements::Here(v) => v,
    };
    let ends: Vec<i64> = match read_ints(env, fetched, node, 2) {
        Elements::Refused => {
            return refused();
        },
        Elements::Away => {
            return Ok(Work::Fetch(2));
        },
        Elements::Here(v) => v,
    };
    let axes: Vec<i64> = match read_list(env, fetched, node, 3) {
        Elements::Refused => {
            return refused();
        },
        Elements::Away => {
            return Ok(Work::Fetch(3));
        },
        Elements::Here(v) => v,
    };
    let steps: Vec<i64> = match read_list(env, fetched, node, 4) {
        Elements::Refused => {
            return refused();
        },
        Elements::Away => {
            return Ok(Work::Fetch(4));
        },
        Elements::Here(v) => v,
    };
    step_bounded(
        env,
        fetched,
        node,
        shape.as_slice(),
        dtype,
        starts.as_slice(),
        ends.as_slice(),
        given_list(node, 3, &axes),
        given_list(node, 4, &steps),
    )
}

// --- Split ------------------------------------------------------------------------------

/// The first `k` parts of a tensor on the host.
pub open spec fn parts_of(t: TensorView, shape: Seq<i64>, axis: int, sizes: Seq<i64>, k: int) -> Option<
    Seq<TensorView>,
>
    decreases k,
{
    if k <= 0 {
        Some(Seq::empty())
    } else {
        let r = Ranges {
            out: part_shape(shape, axis, sizes[k - 1]),
            start: part_start(shape, axis, split_start(sizes, k - 1)),
            step: unit_steps(shape),
        };
        match (parts_of(t, shape, axis, sizes, k - 1), slice_of(t, r)) {
            (Some(rest), Ok(p)) => if slice_fits(t, r) && in_range(split_start(sizes, k)) {
                Some(rest.push(p))
            } else {
                None
            },
            _ => None,
        }
    }
}

proof fn lemma_parts_stop(t: TensorView, shape: Seq<i64>, axis: int, sizes: Seq<i64>, k: int, n: int)
    requires
        k <= n,
        parts_of(t, shape, axis, sizes, k) is None,
    ensures
        parts_of(t, shape, axis, sizes, n) is None,
    decreases n - k,
{
    if k < n {
        lemma_parts_stop(t, shape, axis, sizes, k + 1, n);
    }
}

/// Splits a tensor on the host; nothing comes back where a part does not lie within it.
pub fn host_parts(t: &HostTensor, shape: &[i64], axis: usize, sizes: &[i64]) -> (r: Option<
    Vec<HostTensor>,
>)
    requires
        axis < shape@.len(),
    ensures
        match (r, parts_of(t@, shape@, axis as int, sizes@, sizes@.len() as int)) {
            (Some(v), Some(s)) => views(v@) == s,
            (None, None) => true,
            _ => false,
        },
{
    let n: usize = sizes.len();
    let rank: usize = shape.len();
    let steps: Vec<i64> = repeat(1, rank);
    assert(steps@ =~= unit_steps(shape@));
    let mut parts: Vec<HostTensor> = Vec::new();
    let mut start: i64 = 0;
    let mut j: usize = 0;
    assert(views(parts@) =~= Seq::empty());
    while j < n
        invariant
            j <= n,
            n == sizes@.len(),
            rank == shape@.len(),
            axis < rank,
            steps@ == unit_steps(shape@),
            start == split_start(sizes@, j as int),
            parts_of(t@, shape@, axis as int, sizes@, j as int) == Some(views(parts@)),
        decreases n - j,
    {
        proof {
            if parts_of(t@, shape@, axis as int, sizes@, j + 1) is None {
                lemma_parts_stop(t@, shape@, axis as int, sizes@, j + 1, n as int);
            }
        }
        let mut out: Vec<i64> = section(shape, 0, rank);
        out.set(axis, sizes[j]);
        assert(out@ =~= part_shape(shape@, axis as int, sizes@[j as int]));
        let mut st: Vec<i64> = repeat(0, rank);
        st.set(axis, start);
        assert(st@ =~= part_start(shape@, axis as int, split_start(sizes@, j as int)));
        if !slice_ready(t, out.as_slice(), st.as_slice(), steps.as_slice()) {
            return None;
        }
        let part: HostTensor = match slice(t, out.as_slice(), st.as_slice(), steps.as_slice()) {
            Ok(p) => p,
            Err(_) => {
                return None;
            },
        };
        start = match start.checked_add(sizes[j]) {
            Some(s) => s,
            None => {
                return None;
            },
        };
        let ghost rest = views(parts@);
        parts.push(part);
        assert(views(parts@) =~= rest.push(part@));
        j += 1;
    }
    Some(parts)
}

/// What is left of a split once its sizes are known.
pub open spec fn sized_step(
    env: ExecutionEnv,
    fetched: NameMap<HostTensor>,
    node: NodeIr,
    shape: Seq<i64>,
    dtype: i32,
    sizes: Option<(int, Seq<i64>)>,
) -> Option<WorkView> {
    match sizes {
        None => None,
        Some((axis, s)) => if dtype == FLOAT {
            match device_in(env, node, 0) {
                None => Some(WorkView::Place(0, true)),
                Some(_) => plan_work(split_of(shape, axis, s)),
            }
        } else {
            match read_of(env, fetched, node, 0) {
                ReadView::Refused => None,
                ReadView::Away => Some(WorkView::Fetch(0)),
                ReadView::Here(t) => match parts_of(t, shape, axis, s, s.len() as int) {
                    Some(v) => Some(WorkView::Results(v)),
                    None => None,
                },
            }
        },
    }
}

/// A split: its sizes from an attribute, else from the second input, else equal.
pub open spec fn split_step(
    env: ExecutionEnv,
    fetched: NameMap<HostTensor>,
    node: NodeIr,
) -> Option<WorkView> {
    match (shape_in(env, node, 0), dtype_in(env, node, 0)) {
        (Some(shape), Some(dtype)) => if node.ints_attr("split"@) is None && node.given(1) {
            match ints_in(env, fetched, node, 1) {
                ElementsView::Refused => None,
                ElementsView::Away => Some(WorkView::Fetch(1)),
                ElementsView::Here(v) => sized_step(
                    env,
                    fetched,
                    node,
                    shape,
                    dtype,
                    split_sizes_of(node, shape, Some(v)),
                ),
            }
        } else {
            sized_step(env, fetched, node, shape, dtype, split_sizes_of(node, shape, None))
        },
        _ => None,
    }
}

fn step_sized(
    env: &ExecutionEnv,
    fetched: &NameMap<HostTensor>,
    node: &NodeIr,
    shape: &[i64],
    dtype: i32,
    axis: usize,
    sizes: &[i64],
) -> (r: Result<Work>)
    requires
        axis < shape@.len(),
    ensures
        works(r, sized_step(*env, *fetched, *node, shape@, dtype, Some((axis as int, sizes@)))),
{
    if dtype == FLOAT {
        return match on_device(env, node, 0) {
            None => Ok(Work::Place(0, true)),
            Some(_) => {
                let ghost want = split_of(shape@, axis as int, sizes@);
                as_plan(split(shape, axis, sizes), Ghost(want))
            },
        };
    }
    match read(env, fetched, node, 0) {
        Read::Refused => refused(),
        Read::Away => Ok(Work::Fetch(0)),
        Read::Here(t) => match host_parts(&t, shape, axis, sizes) {
            Some(v) => Ok(Work::Results(v)),
            None => refused(),
        },
    }
}

pub fn step_split(env: &ExecutionEnv, fetched: &NameMap<HostTensor>, node: &NodeIr) -> (r: Result<Work>)
    ensures
        works(r, split_step(*env, *fetched, *node)),
{
    let (shape, dtype): (Vec<i64>, i32) = match (input_shape(env, node, 0), input_dtype(env, node, 0)) {
        (Some(s), Some(d)) => (s, d),
        _ => {
            return refused();
        },
    };
    if node.attr_ints("split").is_none() && node.has_input(1) {
        let v: Vec<i64> = match read_ints(env, fetched, node, 1) {
            Elements::Refused => {
                return refused();
            },
            Elements::Away => {
                return Ok(Work::Fetch(1));
            },
            Elements::Here(v) => v,
        };
        return match split_sizes(node, shape.as_slice(), Some(v.as_slice())) {
            Err(e) => Err(e),
            Ok((axis, sizes)) => step_sized(
                env,
                fetched,
                node,
                shape.as_slice(),
                dtype,
                axis,
                sizes.as_slice(),
            ),
        };
    }
    match split_sizes(node, shape.as_slice(), None) {
        Err(e) => Err(e),
        Ok((axis, sizes)) => step_sized(
            env,
            fetched,
            node,
            shape.as_slice(),
            dtype,
            axis,
            sizes.as_slice(),
        ),
    }
}

// --- Concat -----------------------------------------------------------------------------

/// Which of the first `k` inputs are given.
pub open spec fn given_inputs(node: NodeIr, k: int) -> Seq<usize>
    decreases k,
{
    if k <= 0 {
        Seq::empty()
    } else if node.given(k - 1) {
        given_inputs(node, k - 1).push((k - 1) as usize)
    } else {
        given_inputs(node, k - 1)
    }
}

/// The inputs of a node that are given.
pub fn inputs_given(node: &NodeIr) -> (r: Vec<usize>)
    ensures
        r@ == given_inputs(*node, node.inputs@.len() as int),
        forall|k: int| 0 <= k < r@.len() ==> #[trigger] r@[k] < node.inputs@.len(),
{
    let mut r: Vec<usize> = Vec::new();
    let n: usize = node.inputs.len();
    let mut i: usize = 0;
    assert(r@ =~= Seq::empty());
    while i < n
        invariant
            i <= n,
            n == node.inputs@.len(),
            r@ == given_inputs(*node, i as int),
            forall|k: int| 0 <= k < r@.len() ==> #[trigger] r@[k] < i,
        decreases n - i,
    {
        if node.has_input(i) {
            r.push(i);
        }
        i += 1;
    }
    r
}

/// Several inputs on the host: all here, the first that is away, or one that is not to be had.
pub enum ReadAll {
    Here(Vec<HostTensor>),
    Away(usize),
    Refused,
}

pub enum ReadAllView {
    Here(Seq<TensorView>),
    Away(int),
    Refused,
}

impl View for ReadAll {
    type V = ReadAllView;

    open spec fn view(&self) -> ReadAllView {
        match *self {
            ReadAll::Here(v) => ReadAllView::Here(views(v@)),
            ReadAll::Away(i) => ReadAllView::Away(i as int),
            ReadAll::Refused => ReadAllView::Refused,
        }
    }
}

/// The first `k` of these inputs.
pub open spec fn all_of(
    env: ExecutionEnv,
    fetched: NameMap<HostTensor>,
    node: NodeIr,
    ins: Seq<usize>,
    k: int,
) -> ReadAllView
    decreases k,
{
    if k <= 0 {
        ReadAllView::Here(Seq::empty())
    } else {
        match all_of(env, fetched, node, ins, k - 1) {
            ReadAllView::Here(rest) => match read_of(env, fetched, node, ins[k - 1] as int) {
                ReadView::Here(t) => ReadAllView::Here(rest.push(t)),
                ReadView::Away => ReadAllView::Away(ins[k - 1] as int),
                ReadView::Refused => ReadAllView::Refused,
            },
            stop => stop,
        }
    }
}

proof fn lemma_all_stop(
    env: ExecutionEnv,
    fetched: NameMap<HostTensor>,
    node: NodeIr,
    ins: Seq<usize>,
    k: int,
    n: int,
)
    requires
        k <= n,
        !(all_of(env, fetched, node, ins, k) is Here),
    ensures
        all_of(env, fetched, node, ins, n) == all_of(env, fetched, node, ins, k),
    decreases n - k,
{
    if 0 <= k < n {
        lemma_all_stop(env, fetched, node, ins, k, n - 1);
    }
}

/// Several inputs on the host.
pub fn read_all(env: &ExecutionEnv, fetched: &NameMap<HostTensor>, node: &NodeIr, ins: &Vec<usize>) -> (r:
    ReadAll)
    ensures
        r@ == all_of(*env, *fetched, *node, ins@, ins@.len() as int),
{
    let n: usize = ins.len();
    let mut v: Vec<HostTensor> = Vec::new();
    let mut i: usize = 0;
    assert(views(v@) =~= Seq::empty());
    while i < n
        invariant
            i <= n,
            n == ins@.len(),
            all_of(*env, *fetched, *node, ins@, i as int) == ReadAllView::Here(views(v@)),
        decreases n - i,
    {
        match read(env, fetched, node, ins[i]) {
            Read::Here(t) => {
                let ghost rest = views(v@);
                v.push(t);
                assert(views(v@) =~= rest.push(t@));
            },
            Read::Away => {
                proof {
                    lemma_all_stop(*env, *fetched, *node, ins@, i + 1, n as int);
                }
                return ReadAll::Away(ins[i]);
            },
            Read::Refused => {
                proof {
                    lemma_all_stop(*env, *fetched, *node, ins@, i + 1, n as int);
                }
                return ReadAll::Refused;
            },
        }
        i += 1;
    }
    ReadAll::Here(v)
}

/// These inputs as single-precision numbers on the device.
pub open spec fn joined_wants(ins: Seq<usize>) -> Seq<(usize, bool)> {
    ins.map_values(|i: usize| (i, true))
}

/// The parts of a join, once they are on the device.
pub open spec fn joined_parts(env: ExecutionEnv, node: NodeIr, ins: Seq<usize>) -> Seq<JoinedView> {
    Seq::new(
        ins.len(),
        |k: int|
            JoinedView {
                input: ins[k],
                shape: device_in(env, node, ins[k] as int)->Some_0.shape@,
                elem_count: device_in(env, node, ins[k] as int)->Some_0.elem_count as int,
            },
    )
}

/// A join of the inputs that are given; the first says where it is done.
pub open spec fn concat_step(
    env: ExecutionEnv,
    fetched: NameMap<HostTensor>,
    node: NodeIr,
) -> Option<WorkView> {
    let ins = given_inputs(node, node.inputs@.len() as int);
    match node.opt_int_attr("axis"@) {
        None => None,
        Some(axis) => if ins.len() == 0 {
            None
        } else {
            match dtype_in(env, node, ins[0] as int) {
                None => None,
                Some(dtype) => if dtype == FLOAT {
                    placed_then(
                        env,
                        node,
                        joined_wants(ins),
                        plan_work(concat_plan_of(joined_parts(env, node, ins), axis)),
                    )
                } else {
                    match all_of(env, fetched, node, ins, ins.len() as int) {
                        ReadAllView::Refused => None,
                        ReadAllView::Away(i) => Some(WorkView::Fetch(i)),
                        ReadAllView::Here(v) => result_work(
                            concat_fits(v, axis as int),
                            concat_of(v, axis as int),
                        ),
                    }
                },
            }
        },
    }
}

fn wanted(ins: &Vec<usize>) -> (r: Vec<(usize, bool)>)
    ensures
        r@ == joined_wants(ins@),
{
    let mut r: Vec<(usize, bool)> = Vec::new();
    let mut i: usize = 0;
    let n: usize = ins.len();
    while i < n
        invariant
            i <= n,
            n == ins@.len(),
            r@ =~= joined_wants(ins@).take(i as int),
        decreases n - i,
    {
        r.push((ins[i], true));
        i += 1;
    }
    assert(r@ =~= joined_wants(ins@));
    r
}

/// The parts of a join that are on the device.
fn parts_placed(env: &ExecutionEnv, node: &NodeIr, ins: &Vec<usize>) -> (r: Option<Vec<Joined>>)
    requires
        forall|k: int|
            0 <= k < ins@.len() ==> device_in(*env, *node, (#[trigger] ins@[k]) as int) is Some,
    ensures
        r matches Some(v) && joined_views(v@) == joined_parts(*env, *node, ins@),
{
    let mut v: Vec<Joined> = Vec::new();
    let n: usize = ins.len();
    let mut i: usize = 0;
    while i < n
        invariant
            i <= n,
            n == ins@.len(),
            forall|k: int|
                0 <= k < ins@.len() ==> device_in(*env, *node, (#[trigger] ins@[k]) as int) is Some,
            joined_views(v@) =~= joined_parts(*env, *node, ins@).take(i as int),
        decreases n - i,
    {
        match on_device(env, node, ins[i]) {
            Some(d) => {
                let ghost rest = joined_views(v@);
                let part = Joined {
                    input: ins[i],
                    shape: section(d.shape.as_slice(), 0, d.shape.len()),
                    elem_count: d.elem_count,
                };
                assert(part.shape@ =~= d.shape@);
                v.push(part);
                assert(joined_views(v@) =~= rest.push(part@));
            },
            None => {
                assert(device_in(*env, *node, ins@[i as int] as int) is Some);
                return None;
            },
        }
        i += 1;
    }
    assert(joined_views(v@) =~= joined_parts(*env, *node, ins@));
    Some(v)
}

pub fn step_concat(env: &ExecutionEnv, fetched: &NameMap<HostTensor>, node: &NodeIr) -> (r: Result<Work>)
    ensures
        works(r, concat_step(*env, *fetched, *node)),
{
    let axis: i64 = match node.attr_opt_i64("axis") {
        Some(a) => a,
        None => {
            return refused();
        },
    };
    let ins: Vec<usize> = inputs_given(node);
    if ins.len() == 0 {
        return refused();
    }
    let dtype: i32 = match input_dtype(env, node, ins[0]) {
        Some(d) => d,
        None => {
            return refused();
        },
    };
    if dtype == FLOAT {
        let wants: Vec<(usize, bool)> = wanted(&ins);
        return match first_missing(env, node, &wants) {
            Some((i, f)) => Ok(Work::Place(i, f)),
            None => {
                proof {
                    assert forall|k: int| 0 <= k < ins@.len() implies device_in(
                        *env,
                        *node,
                        (#[trigger] ins@[k]) as int,
                    ) is Some by {
                        assert(wants@[k].0 == ins@[k]);
                    }
                }
                match parts_placed(env, node, &ins) {
                    None => refused(),
                    Some(parts) => {
                        let ghost want = concat_plan_of(joined_views(parts@), axis);
                        as_plan(concat_device(&parts, axis), Ghost(want))
                    },
                }
            },
        };
    }
    match read_all(env, fetched, node, &ins) {
        ReadAll::Refused => refused(),
        ReadAll::Away(i) => Ok(Work::Fetch(i)),
        ReadAll::Here(v) => {
            assert(v@.len() > 0 ==> views(v@)[0] == v@[0]@);
            if concat_ready(&v, axis) {
                as_result(
                    crate::host_ops::join::concat(v.as_slice(), axis),
                    Ghost(concat_of(views(v@), axis as int)),
                )
            } else {
                refused()
            }
        },
    }
}

} // verus!
