//! What the operators on the device need.

use crate::cache::KernelCache;
use crate::device::DeviceTensor;
use crate::error::Result;
use crate::execution::ExecutionEnv;
use crate::graph::NodeIr;
use crate::host_ops::{copy_dims, HostTensor, INT8};
use crate::interp::attention::{
    attention_sizes, attention_sizes_of, AttentionShapes, AttentionShapesView,
};
use crate::interp::elementwise::{mapped_of, unary};
use crate::interp::int_product::{int_sizes, int_sizes_of};
use crate::interp::norm::{
    batchnorm, batchnorm_of, layernorm, layernorm_of, rmsnorm, rmsnorm_of, skip_rmsnorm,
    skip_rmsnorm_of, softmax, softmax_of,
};
use crate::interp::product::{gemm, gemm_of, Extent};
use crate::interp::quantize::{dynamic_quantize, dynamic_quantize_of};
use crate::interp::window::optional;
use crate::interp::work::{
    as_plan, device_in, dtype_in, input_dtype, input_shape, on_device, plan_work, read, read_of,
    refused, shape_in, works, Read, ReadView, Work, WorkView,
};
use crate::names::NameMap;
use crate::plan::{Kernel, PackedKey, PackedKeyView, UnaryOp};
use vstd::prelude::*;

verus! {

// --- inputs on the device ---------------------------------------------------------------

/// The first of the inputs that is not on the device.
pub open spec fn missing(env: ExecutionEnv, node: NodeIr, wants: Seq<(usize, bool)>) -> Option<
    (usize, bool),
>
    decreases wants.len(),
{
    if wants.len() == 0 {
        None
    } else {
        match missing(env, node, wants.drop_last()) {
            Some(w) => Some(w),
            None => if device_in(env, node, wants.last().0 as int) is None {
                Some(wants.last())
            } else {
                None
            },
        }
    }
}

/// Asks for the first input that is not on the device, or goes on.
pub open spec fn placed_then(
    env: ExecutionEnv,
    node: NodeIr,
    wants: Seq<(usize, bool)>,
    w: Option<WorkView>,
) -> Option<WorkView> {
    match missing(env, node, wants) {
        Some((i, f)) => Some(WorkView::Place(i as int, f)),
        None => w,
    }
}

pub fn first_missing(env: &ExecutionEnv, node: &NodeIr, wants: &Vec<(usize, bool)>) -> (r: Option<
    (usize, bool),
>)
    ensures
        r == missing(*env, *node, wants@),
        r is None ==> forall|k: int|
            0 <= k < wants@.len() ==> device_in(*env, *node, (#[trigger] wants@[k]).0 as int) is Some,
{
    let n: usize = wants.len();
    let mut i: usize = 0;
    assert(wants@.take(0) =~= Seq::empty());
    while i < n
        invariant
            i <= n,
            n == wants@.len(),
            missing(*env, *node, wants@.take(i as int)) is None,
            forall|k: int|
                0 <= k < i ==> device_in(*env, *node, (#[trigger] wants@[k]).0 as int) is Some,
        decreases n - i,
    {
        let (w, f): (usize, bool) = wants[i];
        assert(wants@.take(i + 1).drop_last() =~= wants@.take(i as int));
        assert(wants@.take(i + 1).last() == wants@[i as int]);
        if on_device(env, node, w).is_none() {
            proof {
                lemma_missing(*env, *node, wants@, i + 1, n as int);
                assert(wants@.take(n as int) =~= wants@);
            }
            return Some((w, f));
        }
        i += 1;
    }
    assert(wants@.take(n as int) =~= wants@);
    None
}

proof fn lemma_missing(env: ExecutionEnv, node: NodeIr, wants: Seq<(usize, bool)>, k: int, n: int)
    requires
        0 <= k <= n <= wants.len(),
        missing(env, node, wants.take(k)) is Some,
    ensures
        missing(env, node, wants.take(n)) == missing(env, node, wants.take(k)),
    decreases n - k,
{
    if k < n {
        lemma_missing(env, node, wants, k, n - 1);
        assert(wants.take(n).drop_last() =~= wants.take(n - 1));
    }
}

// --- one input --------------------------------------------------------------------------

/// A function of one variable.
pub open spec fn unary_step(env: ExecutionEnv, node: NodeIr, op: UnaryOp) -> Option<WorkView> {
    if node.inputs@.len() == 0 {
        None
    } else {
        match device_in(env, node, 0) {
            None => Some(WorkView::Place(0, true)),
            Some(d) => plan_work(
                mapped_of(Kernel::Unary(op), d.shape@, d.elem_count as int, Seq::empty()),
            ),
        }
    }
}

pub fn step_unary(env: &ExecutionEnv, node: &NodeIr, op: UnaryOp) -> (r: Result<Work>)
    ensures
        works(r, unary_step(*env, *node, op)),
{
    if node.inputs.len() == 0 {
        return refused();
    }
    match on_device(env, node, 0) {
        None => Ok(Work::Place(0, true)),
        Some(d) => as_plan(
            unary(op, copy_dims(d.shape.as_slice()), d.elem_count),
            Ghost(mapped_of(Kernel::Unary(op), d.shape@, d.elem_count as int, Seq::empty())),
        ),
    }
}

pub open spec fn softmax_step(env: ExecutionEnv, node: NodeIr) -> Option<WorkView> {
    if node.inputs@.len() == 0 {
        None
    } else {
        match device_in(env, node, 0) {
            None => Some(WorkView::Place(0, true)),
            Some(d) => plan_work(softmax_of(node, d.shape@, d.elem_count as int)),
        }
    }
}

pub fn step_softmax(env: &ExecutionEnv, node: &NodeIr) -> (r: Result<Work>)
    ensures
        works(r, softmax_step(*env, *node)),
{
    if node.inputs.len() == 0 {
        return refused();
    }
    match on_device(env, node, 0) {
        None => Ok(Work::Place(0, true)),
        Some(d) => as_plan(
            softmax(node, copy_dims(d.shape.as_slice()), d.elem_count),
            Ghost(softmax_of(*node, d.shape@, d.elem_count as int)),
        ),
    }
}

pub open spec fn dynamic_quantize_step(env: ExecutionEnv, node: NodeIr) -> Option<WorkView> {
    if node.inputs@.len() == 0 {
        None
    } else {
        match device_in(env, node, 0) {
            None => Some(WorkView::Place(0, true)),
            Some(d) => plan_work(dynamic_quantize_of(d.shape@, d.elem_count as int)),
        }
    }
}

pub fn step_dynamic_quantize(env: &ExecutionEnv, node: &NodeIr) -> (r: Result<Work>)
    ensures
        works(r, dynamic_quantize_step(*env, *node)),
{
    if node.inputs.len() == 0 {
        return refused();
    }
    match on_device(env, node, 0) {
        None => Ok(Work::Place(0, true)),
        Some(d) => as_plan(
            dynamic_quantize(copy_dims(d.shape.as_slice()), d.elem_count),
            Ghost(dynamic_quantize_of(d.shape@, d.elem_count as int)),
        ),
    }
}

// --- normalizations ---------------------------------------------------------------------

pub open spec fn layernorm_step(env: ExecutionEnv, node: NodeIr) -> Option<WorkView> {
    let wants = if node.given(2) {
        seq![(0usize, true), (1usize, true), (2usize, true)]
    } else {
        seq![(0usize, true), (1usize, true)]
    };
    if node.inputs@.len() < 2 {
        None
    } else {
        let x = device_in(env, node, 0)->Some_0;
        let scale = device_in(env, node, 1)->Some_0;
        let work = plan_work(
            layernorm_of(
                node,
                x.shape@,
                x.elem_count as int,
                scale.elem_count as int,
                node.given(2),
            ),
        );
        placed_then(
            env,
            node,
            wants,
            work,
        )
    }
}

pub fn step_layernorm(env: &ExecutionEnv, node: &NodeIr) -> (r: Result<Work>)
    ensures
        works(r, layernorm_step(*env, *node)),
{
    if node.inputs.len() < 2 {
        return refused();
    }
    let has_bias: bool = node.has_input(2);
    let wants: Vec<(usize, bool)> = if has_bias {
        vec![(0, true), (1, true), (2, true)]
    } else {
        vec![(0, true), (1, true)]
    };
    assert(wants@ =~= if has_bias {
        seq![(0usize, true), (1usize, true), (2usize, true)]
    } else {
        seq![(0usize, true), (1usize, true)]
    });
    match first_missing(env, node, &wants) {
        Some((i, f)) => {
            return Ok(Work::Place(i, f));
        },
        None => {},
    }
    assert(wants@[0].0 == 0 && wants@[1].0 == 1);
    match (on_device(env, node, 0), on_device(env, node, 1)) {
        (Some(x), Some(scale)) => as_plan(
            layernorm(
                node,
                copy_dims(x.shape.as_slice()),
                x.elem_count,
                scale.elem_count,
                has_bias,
            ),
            Ghost(
                layernorm_of(
                    *node,
                    x.shape@,
                    x.elem_count as int,
                    scale.elem_count as int,
                    has_bias,
                ),
            ),
        ),
        _ => refused(),
    }
}

pub open spec fn rmsnorm_step(env: ExecutionEnv, node: NodeIr) -> Option<WorkView> {
    if node.inputs@.len() < 2 {
        None
    } else {
        let x = device_in(env, node, 0)->Some_0;
        let scale = device_in(env, node, 1)->Some_0;
        let work = plan_work(
            rmsnorm_of(node, x.shape@, x.elem_count as int, scale.elem_count as int),
        );
        placed_then(
            env,
            node,
            seq![(0usize, true), (1usize, true)],
            work,
        )
    }
}

pub fn step_rmsnorm(env: &ExecutionEnv, node: &NodeIr) -> (r: Result<Work>)
    ensures
        works(r, rmsnorm_step(*env, *node)),
{
    if node.inputs.len() < 2 {
        return refused();
    }
    let wants: Vec<(usize, bool)> = vec![(0, true), (1, true)];
    assert(wants@ =~= seq![(0usize, true), (1usize, true)]);
    match first_missing(env, node, &wants) {
        Some((i, f)) => {
            return Ok(Work::Place(i, f));
        },
        None => {},
    }
    assert(wants@[0].0 == 0 && wants@[1].0 == 1);
    match (on_device(env, node, 0), on_device(env, node, 1)) {
        (Some(x), Some(scale)) => as_plan(
            rmsnorm(node, copy_dims(x.shape.as_slice()), x.elem_count, scale.elem_count),
            Ghost(rmsnorm_of(*node, x.shape@, x.elem_count as int, scale.elem_count as int)),
        ),
        _ => refused(),
    }
}

pub open spec fn skip_rmsnorm_step(env: ExecutionEnv, node: NodeIr) -> Option<WorkView> {
    if node.inputs@.len() < 3 {
        None
    } else {
        let x = device_in(env, node, 0)->Some_0;
        let skip = device_in(env, node, 1)->Some_0;
        let scale = device_in(env, node, 2)->Some_0;
        let work = plan_work(
            skip_rmsnorm_of(
                node,
                x.shape@,
                x.elem_count as int,
                skip.shape@,
                scale.elem_count as int,
            ),
        );
        placed_then(
            env,
            node,
            seq![(0usize, true), (1usize, true), (2usize, true)],
            work,
        )
    }
}

pub fn step_skip_rmsnorm(env: &ExecutionEnv, node: &NodeIr) -> (r: Result<Work>)
    ensures
        works(r, skip_rmsnorm_step(*env, *node)),
{
    if node.inputs.len() < 3 {
        return refused();
    }
    let wants: Vec<(usize, bool)> = vec![(0, true), (1, true), (2, true)];
    assert(wants@ =~= seq![(0usize, true), (1usize, true), (2usize, true)]);
    match first_missing(env, node, &wants) {
        Some((i, f)) => {
            return Ok(Work::Place(i, f));
        },
        None => {},
    }
    assert(wants@[0].0 == 0 && wants@[1].0 == 1 && wants@[2].0 == 2);
    match (on_device(env, node, 0), on_device(env, node, 1), on_device(env, node, 2)) {
        (Some(x), Some(skip), Some(scale)) => as_plan(
            skip_rmsnorm(
                node,
                copy_dims(x.shape.as_slice()),
                x.elem_count,
                skip.shape.as_slice(),
                scale.elem_count,
            ),
            Ghost(
                skip_rmsnorm_of(
                    *node,
                    x.shape@,
                    x.elem_count as int,
                    skip.shape@,
                    scale.elem_count as int,
                ),
            ),
        ),
        _ => refused(),
    }
}

pub open spec fn batchnorm_step(env: ExecutionEnv, node: NodeIr) -> Option<WorkView> {
    if node.inputs@.len() < 5 || node.outputs@.len() != 1 {
        None
    } else {
        let x = device_in(env, node, 0)->Some_0;
        let work = plan_work(
            batchnorm_of(
                node,
                x.shape@,
                x.elem_count as int,
                seq![
                    device_in(env, node, 1)->Some_0.elem_count,
                    device_in(env, node, 2)->Some_0.elem_count,
                    device_in(env, node, 3)->Some_0.elem_count,
                    device_in(env, node, 4)->Some_0.elem_count,
                ],
            ),
        );
        placed_then(
            env,
            node,
            seq![
                (0usize, true),
                (1usize, true),
                (2usize, true),
                (3usize, true),
                (4usize, true),
            ],
            work,
        )
    }
}

pub fn step_batchnorm(env: &ExecutionEnv, node: &NodeIr) -> (r: Result<Work>)
    ensures
        works(r, batchnorm_step(*env, *node)),
{
    if node.inputs.len() < 5 || node.outputs.len() != 1 {
        return refused();
    }
    let wants: Vec<(usize, bool)> = vec![(0, true), (1, true), (2, true), (3, true), (4, true)];
    assert(wants@ =~= seq![
        (0usize, true),
        (1usize, true),
        (2usize, true),
        (3usize, true),
        (4usize, true),
    ]);
    match first_missing(env, node, &wants) {
        Some((i, f)) => {
            return Ok(Work::Place(i, f));
        },
        None => {},
    }
    assert(wants@[0].0 == 0 && wants@[1].0 == 1 && wants@[2].0 == 2 && wants@[3].0 == 3
        && wants@[4].0 == 4);
    match (
        on_device(env, node, 0),
        on_device(env, node, 1),
        on_device(env, node, 2),
        on_device(env, node, 3),
        on_device(env, node, 4),
    ) {
        (Some(x), Some(a), Some(b), Some(c), Some(d)) => {
            let counts: Vec<usize> = vec![
                a.elem_count,
                b.elem_count,
                c.elem_count,
                d.elem_count,
            ];
            let ghost cv = seq![a.elem_count, b.elem_count, c.elem_count, d.elem_count];
            assert(counts@ =~= cv);
            as_plan(
                batchnorm(node, copy_dims(x.shape.as_slice()), x.elem_count, counts.as_slice()),
                Ghost(batchnorm_of(*node, x.shape@, x.elem_count as int, cv)),
            )
        },
        _ => refused(),
    }
}

// --- products ---------------------------------------------------------------------------

pub open spec fn matmul_step(env: ExecutionEnv, node: NodeIr) -> Option<WorkView> {
    if node.inputs@.len() < 2 {
        None
    } else {
        placed_then(
            env,
            node,
            seq![(0usize, true), (1usize, true)],
            Some(
                WorkView::MatMul(
                    device_in(env, node, 0)->Some_0.shape@,
                    device_in(env, node, 1)->Some_0.shape@,
                ),
            ),
        )
    }
}

pub fn step_matmul(env: &ExecutionEnv, node: &NodeIr) -> (r: Result<Work>)
    ensures
        works(r, matmul_step(*env, *node)),
{
    if node.inputs.len() < 2 {
        return refused();
    }
    let wants: Vec<(usize, bool)> = vec![(0, true), (1, true)];
    assert(wants@ =~= seq![(0usize, true), (1usize, true)]);
    match first_missing(env, node, &wants) {
        Some((i, f)) => {
            return Ok(Work::Place(i, f));
        },
        None => {},
    }
    assert(wants@[0].0 == 0 && wants@[1].0 == 1);
    match (on_device(env, node, 0), on_device(env, node, 1)) {
        (Some(a), Some(b)) => Ok(
            Work::MatMul(copy_dims(a.shape.as_slice()), copy_dims(b.shape.as_slice())),
        ),
        _ => refused(),
    }
}

pub open spec fn extent_of(d: DeviceTensor) -> Extent {
    Extent { dtype: d.dtype, elem_count: d.elem_count }
}

pub open spec fn nbits_step(env: ExecutionEnv, node: NodeIr) -> Option<WorkView> {
    if node.inputs@.len() < 3 {
        None
    } else {
        placed_then(
            env,
            node,
            seq![(0usize, true), (1usize, false), (2usize, true)],
            Some(
                WorkView::MatMulNbits(
                    device_in(env, node, 0)->Some_0.shape@,
                    device_in(env, node, 0)->Some_0.elem_count,
                    extent_of(device_in(env, node, 1)->Some_0),
                    extent_of(device_in(env, node, 2)->Some_0),
                ),
            ),
        )
    }
}

pub fn step_nbits(env: &ExecutionEnv, node: &NodeIr) -> (r: Result<Work>)
    ensures
        works(r, nbits_step(*env, *node)),
{
    if node.inputs.len() < 3 {
        return refused();
    }
    let wants: Vec<(usize, bool)> = vec![(0, true), (1, false), (2, true)];
    assert(wants@ =~= seq![(0usize, true), (1usize, false), (2usize, true)]);
    match first_missing(env, node, &wants) {
        Some((i, f)) => {
            return Ok(Work::Place(i, f));
        },
        None => {},
    }
    assert(wants@[0].0 == 0 && wants@[1].0 == 1 && wants@[2].0 == 2);
    match (on_device(env, node, 0), on_device(env, node, 1), on_device(env, node, 2)) {
        (Some(a), Some(w), Some(s)) => Ok(
            Work::MatMulNbits(
                copy_dims(a.shape.as_slice()),
                a.elem_count,
                Extent { dtype: w.dtype, elem_count: w.elem_count },
                Extent { dtype: s.dtype, elem_count: s.elem_count },
            ),
        ),
        _ => refused(),
    }
}

/// The name under which a packed second matrix is kept, where it is constant.
pub open spec fn packed_name(node: NodeIr, sizes: (int, int, int)) -> PackedKeyView {
    PackedKeyView { name: node.input_name(1), rows: sizes.1, cols: sizes.2 }
}

pub open spec fn matmul_integer_step(
    env: ExecutionEnv,
    cache: KernelCache,
    fetched: NameMap<HostTensor>,
    node: NodeIr,
) -> Option<WorkView> {
    if node.inputs@.len() < 4 {
        None
    } else {
        let a = device_in(env, node, 0)->Some_0;
        let constant = env.initializers.has(node.input_name(1));
        let work = match (shape_in(env, node, 1), dtype_in(env, node, 1)) {
            (Some(b), Some(dtype)) => match int_sizes_of(a.shape@, b) {
                None => None,
                Some(sizes) => if constant && cache.packed.has(packed_name(node, sizes)) {
                    Some(
                        WorkView::MatMulInteger(
                            a.shape@,
                            b,
                            a.dtype == INT8,
                            dtype == INT8,
                            true,
                            None,
                        ),
                    )
                } else {
                    match read_of(env, fetched, node, 1) {
                        ReadView::Here(t) => Some(
                            WorkView::MatMulInteger(
                                a.shape@,
                                b,
                                a.dtype == INT8,
                                dtype == INT8,
                                constant,
                                Some(t),
                            ),
                        ),
                        ReadView::Away => Some(WorkView::Fetch(1)),
                        ReadView::Refused => None,
                    }
                },
            },
            _ => None,
        };
        placed_then(
            env,
            node,
            seq![(0usize, false), (2usize, false), (3usize, false)],
            work,
        )
    }
}

pub fn step_matmul_integer(
    env: &ExecutionEnv,
    cache: &KernelCache,
    fetched: &NameMap<HostTensor>,
    node: &NodeIr,
) -> (r: Result<Work>)
    ensures
        works(r, matmul_integer_step(*env, *cache, *fetched, *node)),
{
    if node.inputs.len() < 4 {
        return refused();
    }
    let wants: Vec<(usize, bool)> = vec![(0, false), (2, false), (3, false)];
    assert(wants@ =~= seq![(0usize, false), (2usize, false), (3usize, false)]);
    match first_missing(env, node, &wants) {
        Some((i, f)) => {
            return Ok(Work::Place(i, f));
        },
        None => {},
    }
    assert(wants@[0].0 == 0);
    let a: &DeviceTensor = match on_device(env, node, 0) {
        Some(a) => a,
        None => {
            return refused();
        },
    };
    let b: Vec<i64> = match input_shape(env, node, 1) {
        Some(b) => b,
        None => {
            return refused();
        },
    };
    let dtype: i32 = match input_dtype(env, node, 1) {
        Some(d) => d,
        None => {
            return refused();
        },
    };
    let (m, k, n): (usize, usize, usize) = match int_sizes(a.shape.as_slice(), b.as_slice()) {
        Some(s) => s,
        None => {
            return refused();
        },
    };
    let key = PackedKey { name: node.inputs[1].clone(), rows: k, cols: n };
    let constant: bool = env.is_initializer(node.inputs[1].as_str());
    let packed: bool = constant && cache.packed_weight_cached(&key).is_some();
    assert(key@ == packed_name(*node, (m as int, k as int, n as int)));
    assert(packed == (constant && cache.packed.has(key@)));
    let shape = copy_dims(a.shape.as_slice());
    if packed {
        return Ok(Work::MatMulInteger(shape, b, a.dtype == INT8, dtype == INT8, true, None));
    }
    match read(env, fetched, node, 1) {
        Read::Here(t) => Ok(
            Work::MatMulInteger(shape, b, a.dtype == INT8, dtype == INT8, constant, Some(t)),
        ),
        Read::Away => Ok(Work::Fetch(1)),
        Read::Refused => refused(),
    }
}

pub open spec fn gemm_step(env: ExecutionEnv, node: NodeIr, tile: u32) -> Option<WorkView> {
    match (shape_in(env, node, 0), shape_in(env, node, 1)) {
        (Some(a), Some(b)) => {
            let c = if node.given(2) {
                shape_in(env, node, 2)
            } else {
                None
            };
            if node.given(2) && c is None {
                None
            } else {
                match gemm_of(node, a, b, c, tile) {
                    None => None,
                    Some(p) => placed_then(
                        env,
                        node,
                        if node.given(2) {
                            seq![(0usize, true), (1usize, true), (2usize, true)]
                        } else {
                            seq![(0usize, true), (1usize, true)]
                        },
                        Some(WorkView::Plan(p)),
                    ),
                }
            }
        },
        _ => None,
    }
}

pub fn step_gemm(env: &ExecutionEnv, node: &NodeIr, tile: u32) -> (r: Result<Work>)
    requires
        tile > 0,
    ensures
        works(r, gemm_step(*env, *node, tile)),
{
    let (a, b): (Vec<i64>, Vec<i64>) = match (input_shape(env, node, 0), input_shape(env, node, 1)) {
        (Some(a), Some(b)) => (a, b),
        _ => {
            return refused();
        },
    };
    let has_c: bool = node.has_input(2);
    let c: Option<Vec<i64>> = if has_c {
        match input_shape(env, node, 2) {
            Some(c) => Some(c),
            None => {
                return refused();
            },
        }
    } else {
        None
    };
    let ghost cv = optional(c);
    let plan = match &c {
        Some(s) => gemm(node, a.as_slice(), b.as_slice(), Some(s.as_slice()), tile),
        None => gemm(node, a.as_slice(), b.as_slice(), None, tile),
    };
    match plan {
        Err(e) => Err(e),
        Ok(p) => {
            let wants: Vec<(usize, bool)> = if has_c {
                vec![(0, true), (1, true), (2, true)]
            } else {
                vec![(0, true), (1, true)]
            };
            assert(wants@ =~= if has_c {
                seq![(0usize, true), (1usize, true), (2usize, true)]
            } else {
                seq![(0usize, true), (1usize, true)]
            });
            match first_missing(env, node, &wants) {
                Some((i, f)) => Ok(Work::Place(i, f)),
                None => Ok(Work::Plan(p)),
            }
        },
    }
}

// --- attention --------------------------------------------------------------------------

pub open spec fn attention_wants() -> Seq<(usize, bool)> {
    seq![
        (0usize, true),
        (1usize, true),
        (2usize, true),
        (3usize, true),
        (4usize, true),
        (7usize, true),
        (8usize, true),
    ]
}

pub open spec fn attention_step(env: ExecutionEnv, node: NodeIr, max_context: u32) -> Option<WorkView> {
    if node.inputs@.len() < 9 {
        None
    } else {
        let s = AttentionShapesView {
            q: device_in(env, node, 0)->Some_0.shape@,
            k: device_in(env, node, 1)->Some_0.shape@,
            v: device_in(env, node, 2)->Some_0.shape@,
            past_k: device_in(env, node, 3)->Some_0.shape@,
            past_v: device_in(env, node, 4)->Some_0.shape@,
            cos: device_in(env, node, 7)->Some_0.elem_count,
            sin: device_in(env, node, 8)->Some_0.elem_count,
        };
        let work = match attention_sizes_of(node, s, max_context) {
            Some(z) => Some(WorkView::Attention(z)),
            None => None,
        };
        placed_then(
            env,
            node,
            attention_wants(),
            work,
        )
    }
}

pub fn step_attention(env: &ExecutionEnv, node: &NodeIr, max_context: u32) -> (r: Result<Work>)
    ensures
        works(r, attention_step(*env, *node, max_context)),
{
    if node.inputs.len() < 9 {
        return refused();
    }
    let wants: Vec<(usize, bool)> = vec![
        (0, true),
        (1, true),
        (2, true),
        (3, true),
        (4, true),
        (7, true),
        (8, true),
    ];
    assert(wants@ =~= attention_wants());
    match first_missing(env, node, &wants) {
        Some((i, f)) => {
            return Ok(Work::Place(i, f));
        },
        None => {},
    }
    assert(wants@[0].0 == 0 && wants@[1].0 == 1 && wants@[2].0 == 2 && wants@[3].0 == 3
        && wants@[4].0 == 4 && wants@[5].0 == 7 && wants@[6].0 == 8);
    match (
        on_device(env, node, 0),
        on_device(env, node, 1),
        on_device(env, node, 2),
        on_device(env, node, 3),
        on_device(env, node, 4),
        on_device(env, node, 7),
        on_device(env, node, 8),
    ) {
        (Some(q), Some(k), Some(v), Some(pk), Some(pv), Some(cos), Some(sin)) => {
            let s = AttentionShapes {
                q: q.shape.as_slice(),
                k: k.shape.as_slice(),
                v: v.shape.as_slice(),
                past_k: pk.shape.as_slice(),
                past_v: pv.shape.as_slice(),
                cos: cos.elem_count,
                sin: sin.elem_count,
            };
            match attention_sizes(node, &s, max_context) {
                Ok(z) => Ok(Work::Attention(z)),
                Err(e) => Err(e),
            }
        },
        _ => refused(),
    }
}

} // verus!
