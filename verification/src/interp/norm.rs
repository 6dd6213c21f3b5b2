//! Softmax and normalizations.

use crate::error::{backend_error, Kind, Result};
use crate::graph::NodeIr;
use crate::host_ops::select::same_dims;
use crate::host_ops::FLOAT;
use crate::interp::conv::size;
use crate::interp::window::section;
use crate::num::{
    ceil_div, checked_product, flag, flag_of, groups, product_fits, size_word, w32, word,
};
use crate::plan::{
    one_output, output, output_of, planned, run, run_of, simple, Kernel, Plan, PlanView, Produced,
    Slot,
};
use crate::shape::{count_of, element_count, product};
use vstd::prelude::*;

verus! {

/// The bits of 1e-5.
pub const EPSILON: u32 = 0x3727_c5ac;

/// The largest number of work groups along one dimension.
pub const MAX_GROUPS: usize = 65535;

/// Counted from the front: a negative axis counts from the end.
pub open spec fn from_front(axis: i64, rank: int) -> int {
    if axis < 0 {
        axis + rank
    } else {
        axis as int
    }
}

/// The axis that the attribute `name` gives, where it is one of the tensor's.
pub open spec fn axis_of(axis: i64, rank: int) -> Option<int> {
    let a = from_front(axis, rank);
    if 0 <= a < rank {
        Some(a)
    } else {
        None
    }
}

/// The axis counted from the front, where it is one of the tensor's.
pub fn front(axis: i64, rank: usize) -> (r: Option<usize>)
    ensures
        match r {
            Some(a) => axis_of(axis, rank as int) == Some(a as int),
            None => axis_of(axis, rank as int) is None,
        },
{
    let a: i128 = if axis < 0 {
        axis as i128 + rank as i128
    } else {
        axis as i128
    };
    if 0 <= a && a < rank as i128 {
        Some(a as usize)
    } else {
        None
    }
}

/// The axis of a softmax: an attribute, by default the last.
pub fn resolve_axis(node: &NodeIr, rank: usize) -> (r: Result<usize>)
    ensures
        match r {
            Ok(a) => axis_of(node.int_attr("axis"@, (-1) as i64), rank as int) == Some(a as int),
            Err(e) => axis_of(node.int_attr("axis"@, (-1) as i64), rank as int) is None && e.kind()
                == Kind::Backend,
        },
{
    match front(node.attr_i64("axis", -1), rank) {
        Some(a) => Ok(a),
        None => Err(backend_error("the axis is not one of the tensor's")),
    }
}

/// Whether the axis that the attribute gives is the last.
pub fn last_axis(node: &NodeIr, rank: usize) -> (r: bool)
    ensures
        r == (from_front(node.int_attr("axis"@, (-1) as i64), rank as int) == rank - 1),
{
    let axis: i64 = node.attr_i64("axis", -1);
    let a: i128 = if axis < 0 {
        axis as i128 + rank as i128
    } else {
        axis as i128
    };
    a == rank as i128 - 1
}

/// How many elements lie between neighbours along an axis: the product of the dimensions
/// behind it, at least one.
pub open spec fn inner_of(shape: Seq<i64>, axis: int) -> Option<int> {
    let rest = shape.skip(axis + 1);
    if product_fits(rest) && product(rest) <= usize::MAX {
        Some(
            if product(rest) < 1 {
                1
            } else {
                product(rest)
            },
        )
    } else {
        None
    }
}

pub fn inner(shape: &[i64], axis: usize) -> (r: Option<usize>)
    requires
        axis < shape@.len(),
    ensures
        match r {
            Some(v) => inner_of(shape@, axis as int) == Some(v as int),
            None => inner_of(shape@, axis as int) is None,
        },
{
    let rank: usize = shape.len();
    let rest = section(shape, axis + 1, rank);
    assert(rest@ =~= shape@.skip(axis + 1));
    match checked_product(rest.as_slice()) {
        Some(p) => if p < 1 {
            Some(1)
        } else if p as u64 > usize::MAX as u64 {
            None
        } else {
            Some(p as usize)
        },
        None => None,
    }
}

/// How many lines of `c` elements `n` elements make.
pub open spec fn lines_of(n: int, c: i64) -> int {
    if c <= 0 {
        0
    } else {
        n / (c as int)
    }
}

pub fn lines(n: usize, c: i64) -> (r: usize)
    ensures
        r == lines_of(n as int, c),
{
    if c <= 0 {
        0
    } else if c as u64 > usize::MAX as u64 {
        proof {
            assert(n as int / c as int == 0) by (nonlinear_arith)
                requires
                    0 <= n < c,
            ;
        }
        0
    } else {
        n / (c as usize)
    }
}

/// The plan of a softmax along an axis: one work group for each line, in two dimensions.
pub open spec fn softmax_of(node: NodeIr, shape: Seq<i64>, n: int) -> Option<PlanView> {
    match (axis_of(node.int_attr("axis"@, (-1) as i64), shape.len() as int), output_of(FLOAT, shape, n)) {
        (Some(a), Some(out)) => match inner_of(shape, a) {
            None => None,
            Some(inner) => {
                let rows = lines_of(n, shape[a]);
                let gx = if rows < 1 {
                    1
                } else if rows > 32768 {
                    32768
                } else {
                    rows
                };
                Some(
                    one_output(
                        out,
                        if n == 0 {
                            Seq::empty()
                        } else {
                            seq![
                                run_of(
                                    Kernel::Softmax,
                                    seq![Slot::Input(0), Slot::Output(0)],
                                    seq![w32(shape[a] as int), w32(inner), w32(rows), gx as u32],
                                    gx,
                                    ceil_div(w32(rows) as int, gx),
                                    1,
                                ),
                            ]
                        },
                    ),
                )
            },
        },
        _ => None,
    }
}

/// Plans a softmax.
pub fn softmax(node: &NodeIr, shape: Vec<i64>, elem_count: usize) -> (r: Result<Plan>)
    ensures
        planned(r, softmax_of(*node, shape@, elem_count as int)),
{
    let axis: usize = match resolve_axis(node, shape.len()) {
        Ok(a) => a,
        Err(e) => {
            return Err(e);
        },
    };
    let c: i64 = shape[axis];
    let inner: usize = match inner(shape.as_slice(), axis) {
        Some(i) => i,
        None => {
            return Err(backend_error("the shape is too large"));
        },
    };
    let rows: usize = lines(elem_count, c);
    let gx: u32 = if rows < 1 {
        1
    } else if rows > 32768 {
        32768
    } else {
        rows as u32
    };
    let out: Produced = match output(FLOAT, shape, elem_count) {
        Ok(p) => p,
        Err(e) => {
            return Err(e);
        },
    };
    if elem_count == 0 {
        return Ok(simple(out, None));
    }
    let slots: Vec<Slot> = vec![Slot::Input(0), Slot::Output(0)];
    assert(slots@ =~= seq![Slot::Input(0), Slot::Output(0)]);
    let push: Vec<u32> = vec![word(c), size_word(inner), size_word(rows), gx];
    assert(push@ =~= seq![w32(c as int), w32(inner as int), w32(rows as int), gx]);
    Ok(
        simple(
            out,
            Some(run(Kernel::Softmax, slots, push, gx, groups(size_word(rows), gx), 1)),
        ),
    )
}

// --- along the last dimension -----------------------------------------------------------

/// The length of the last dimension, one for a number.
pub open spec fn last_dim(shape: Seq<i64>) -> i64 {
    if shape.len() == 0 {
        1
    } else {
        shape.last()
    }
}

/// Length and number of the lines along the last dimension, where there are few enough.
pub open spec fn row_cols_of(shape: Seq<i64>, n: int) -> Option<(int, int)> {
    let c = last_dim(shape);
    let rows = n / (if c < 1 {
        1
    } else {
        c as int
    });
    if 0 <= c <= usize::MAX && rows <= MAX_GROUPS {
        Some((c as int, rows))
    } else {
        None
    }
}

/// Length and number of the lines along the last dimension.
pub fn row_cols(shape: &[i64], elem_count: usize) -> (r: Result<(usize, usize)>)
    ensures
        match (r, row_cols_of(shape@, elem_count as int)) {
            (Ok((c, rows)), Some((cs, rs))) => c == cs && rows == rs,
            (Err(e), None) => e.kind() == Kind::Backend,
            _ => false,
        },
{
    let rank: usize = shape.len();
    let last: i64 = if rank == 0 {
        1
    } else {
        shape[rank - 1]
    };
    let c: usize = match size(last) {
        Some(c) => c,
        None => {
            return Err(backend_error("the last dimension is not valid"));
        },
    };
    let rows: usize = elem_count / (if c < 1 {
        1
    } else {
        c
    });
    if rows > MAX_GROUPS {
        return Err(backend_error("too many rows"));
    }
    Ok((c, rows))
}

/// The plan of a normalization along the last dimension: one work group for each line.
pub open spec fn normalized_of(
    kernel: Kernel,
    shape: Seq<i64>,
    n: int,
    scale_count: int,
    slots: Seq<Slot>,
    rest: Seq<u32>,
) -> Option<PlanView> {
    match (row_cols_of(shape, n), output_of(FLOAT, shape, n)) {
        (Some((c, rows)), Some(out)) => if scale_count != c {
            None
        } else {
            Some(
                one_output(
                    out,
                    if n == 0 {
                        Seq::empty()
                    } else {
                        seq![run_of(kernel, slots, seq![w32(c)] + rest, w32(rows) as int, 1, 1)]
                    },
                ),
            )
        },
        _ => None,
    }
}

fn normalized(
    kernel: Kernel,
    shape: Vec<i64>,
    n: usize,
    scale_count: usize,
    slots: Vec<Slot>,
    rest: Vec<u32>,
) -> (r: Result<Plan>)
    ensures
        planned(r, normalized_of(kernel, shape@, n as int, scale_count as int, slots@, rest@)),
{
    let (c, rows): (usize, usize) = match row_cols(shape.as_slice(), n) {
        Ok(p) => p,
        Err(e) => {
            return Err(e);
        },
    };
    if scale_count != c {
        return Err(backend_error("the scale does not suit the last dimension"));
    }
    let out: Produced = match output(FLOAT, shape, n) {
        Ok(p) => p,
        Err(e) => {
            return Err(e);
        },
    };
    if n == 0 {
        return Ok(simple(out, None));
    }
    let mut push: Vec<u32> = vec![size_word(c)];
    let mut rest = rest;
    let ghost tail = rest@;
    push.append(&mut rest);
    assert(push@ =~= seq![w32(c as int)] + tail);
    Ok(simple(out, Some(run(kernel, slots, push, size_word(rows), 1, 1))))
}

/// The plan of `LayerNormalization`, which only works along the last dimension.
pub open spec fn layernorm_of(
    node: NodeIr,
    shape: Seq<i64>,
    n: int,
    scale_count: int,
    has_bias: bool,
) -> Option<PlanView> {
    if from_front(node.int_attr("axis"@, (-1) as i64), shape.len() as int) != shape.len() - 1 {
        None
    } else {
        normalized_of(
            Kernel::LayerNorm,
            shape,
            n,
            scale_count,
            seq![
                Slot::Input(0),
                Slot::Input(1),
                if has_bias {
                    Slot::Input(2)
                } else {
                    Slot::Input(1)
                },
                Slot::Output(0),
            ],
            seq![node.float_attr("epsilon"@, EPSILON), flag_of(has_bias)],
        )
    }
}

/// Plans `LayerNormalization`.
pub fn layernorm(
    node: &NodeIr,
    shape: Vec<i64>,
    elem_count: usize,
    scale_count: usize,
    has_bias: bool,
) -> (r: Result<Plan>)
    ensures
        planned(
            r,
            layernorm_of(*node, shape@, elem_count as int, scale_count as int, has_bias),
        ),
{
    if !last_axis(node, shape.len()) {
        return Err(backend_error("only the last dimension can be normalized"));
    }
    let bias: Slot = if has_bias {
        Slot::Input(2)
    } else {
        Slot::Input(1)
    };
    let slots: Vec<Slot> = vec![Slot::Input(0), Slot::Input(1), bias, Slot::Output(0)];
    assert(slots@ =~= seq![Slot::Input(0), Slot::Input(1), bias, Slot::Output(0)]);
    let rest: Vec<u32> = vec![node.attr_f32("epsilon", EPSILON), flag(has_bias)];
    assert(rest@ =~= seq![node.float_attr("epsilon"@, EPSILON), flag_of(has_bias)]);
    normalized(Kernel::LayerNorm, shape, elem_count, scale_count, slots, rest)
}

/// The plan of `SimplifiedLayerNormalization`.
pub open spec fn rmsnorm_of(node: NodeIr, shape: Seq<i64>, n: int, scale_count: int) -> Option<
    PlanView,
> {
    normalized_of(
        Kernel::RmsNorm,
        shape,
        n,
        scale_count,
        seq![Slot::Input(0), Slot::Input(1), Slot::Output(0)],
        seq![node.float_attr("epsilon"@, EPSILON)],
    )
}

/// Plans `SimplifiedLayerNormalization`.
pub fn rmsnorm(node: &NodeIr, shape: Vec<i64>, elem_count: usize, scale_count: usize) -> (r: Result<
    Plan,
>)
    ensures
        planned(r, rmsnorm_of(*node, shape@, elem_count as int, scale_count as int)),
{
    let slots: Vec<Slot> = vec![Slot::Input(0), Slot::Input(1), Slot::Output(0)];
    assert(slots@ =~= seq![Slot::Input(0), Slot::Input(1), Slot::Output(0)]);
    let rest: Vec<u32> = vec![node.attr_f32("epsilon", EPSILON)];
    assert(rest@ =~= seq![node.float_attr("epsilon"@, EPSILON)]);
    normalized(Kernel::RmsNorm, shape, elem_count, scale_count, slots, rest)
}

/// The plan of `SkipSimplifiedLayerNormalization`: the sum of two tensors of the same shape.
pub open spec fn skip_rmsnorm_of(
    node: NodeIr,
    shape: Seq<i64>,
    n: int,
    skip: Seq<i64>,
    scale_count: int,
) -> Option<PlanView> {
    if skip != shape {
        None
    } else {
        normalized_of(
            Kernel::SkipRmsNorm,
            shape,
            n,
            scale_count,
            seq![Slot::Input(0), Slot::Input(1), Slot::Input(2), Slot::Output(0)],
            seq![node.float_attr("epsilon"@, EPSILON)],
        )
    }
}

/// Plans `SkipSimplifiedLayerNormalization`.
pub fn skip_rmsnorm(
    node: &NodeIr,
    shape: Vec<i64>,
    elem_count: usize,
    skip: &[i64],
    scale_count: usize,
) -> (r: Result<Plan>)
    ensures
        planned(
            r,
            skip_rmsnorm_of(*node, shape@, elem_count as int, skip@, scale_count as int),
        ),
{
    if !same_dims(skip, shape.as_slice()) {
        return Err(backend_error("the shapes differ"));
    }
    let slots: Vec<Slot> = vec![Slot::Input(0), Slot::Input(1), Slot::Input(2), Slot::Output(0)];
    assert(slots@ =~= seq![Slot::Input(0), Slot::Input(1), Slot::Input(2), Slot::Output(0)]);
    let rest: Vec<u32> = vec![node.attr_f32("epsilon", EPSILON)];
    assert(rest@ =~= seq![node.float_attr("epsilon"@, EPSILON)]);
    normalized(Kernel::SkipRmsNorm, shape, elem_count, scale_count, slots, rest)
}

// --- batch normalization ----------------------------------------------------------------

/// The plan of `BatchNormalization` with given statistics: four parameters, one value for each
/// channel.
pub open spec fn batchnorm_of(node: NodeIr, shape: Seq<i64>, n: int, counts: Seq<usize>) -> Option<
    PlanView,
> {
    if node.inputs@.len() < 5 || node.outputs@.len() != 1 || shape.len() < 2 || shape[1] < 0
        || shape[1] > usize::MAX || counts.len() != 4 || counts[0] != shape[1] || counts[1]
        != shape[1] || counts[2] != shape[1] || counts[3] != shape[1] {
        None
    } else {
        match (count_of(shape.skip(2)), output_of(FLOAT, shape, n)) {
            (Some(spatial), Some(out)) => if n == 0 {
                Some(one_output(out, Seq::empty()))
            } else if ceil_div(n, 256) > MAX_GROUPS {
                None
            } else {
                Some(
                    one_output(
                        out,
                        seq![
                            run_of(
                                Kernel::BatchNorm,
                                seq![
                                    Slot::Input(0),
                                    Slot::Input(1),
                                    Slot::Input(2),
                                    Slot::Input(3),
                                    Slot::Input(4),
                                    Slot::Output(0),
                                ],
                                seq![
                                    w32(n),
                                    w32(shape[1] as int),
                                    w32(spatial),
                                    node.float_attr("epsilon"@, EPSILON),
                                ],
                                ceil_div(n, 256),
                                1,
                                1,
                            ),
                        ],
                    ),
                )
            },
            _ => None,
        }
    }
}

/// Plans `BatchNormalization`; `counts` holds the number of elements of scale, bias, mean and
/// variance.
pub fn batchnorm(node: &NodeIr, shape: Vec<i64>, elem_count: usize, counts: &[usize]) -> (r: Result<
    Plan,
>)
    ensures
        planned(r, batchnorm_of(*node, shape@, elem_count as int, counts@)),
{
    if node.inputs.len() < 5 || node.outputs.len() != 1 {
        return Err(backend_error("only the form for inference is supported"));
    }
    let rank: usize = shape.len();
    if rank < 2 {
        return Err(backend_error("the input has no channels"));
    }
    let channels: usize = match size(shape[1]) {
        Some(c) => c,
        None => {
            return Err(backend_error("the number of channels is not valid"));
        },
    };
    let rest = section(shape.as_slice(), 2, rank);
    assert(rest@ =~= shape@.skip(2));
    let spatial: usize = match element_count(rest.as_slice()) {
        Ok(s) => s,
        Err(_) => {
            return Err(backend_error("the spatial shape is not valid"));
        },
    };
    if counts.len() != 4 || counts[0] != channels || counts[1] != channels || counts[2] != channels
        || counts[3] != channels {
        return Err(backend_error("the parameters do not suit the channels"));
    }
    let out: Produced = match output(FLOAT, shape, elem_count) {
        Ok(p) => p,
        Err(e) => {
            return Err(e);
        },
    };
    if elem_count == 0 {
        return Ok(simple(out, None));
    }
    if elem_count > 256 * MAX_GROUPS {
        return Err(backend_error("the dispatch is too large"));
    }
    let x: u32 = groups(elem_count as u32, 256);
    let slots: Vec<Slot> = vec![
        Slot::Input(0),
        Slot::Input(1),
        Slot::Input(2),
        Slot::Input(3),
        Slot::Input(4),
        Slot::Output(0),
    ];
    assert(slots@ =~= seq![
        Slot::Input(0),
        Slot::Input(1),
        Slot::Input(2),
        Slot::Input(3),
        Slot::Input(4),
        Slot::Output(0),
    ]);
    let push: Vec<u32> = vec![
        size_word(elem_count),
        size_word(channels),
        size_word(spatial),
        node.attr_f32("epsilon", EPSILON),
    ];
    assert(push@ =~= seq![
        w32(elem_count as int),
        w32(channels as int),
        w32(spatial as int),
        node.float_attr("epsilon"@, EPSILON),
    ]);
    Ok(simple(out, Some(run(Kernel::BatchNorm, slots, push, x, 1, 1))))
}

} // verus!
