//! Functions of single elements, with broadcasting.

use crate::error::{backend_error, Kind, Result};
use crate::floats::INFINITY;
use crate::graph::NodeIr;
use crate::host_ops::arith::BinOp;
use crate::host_ops::{FLOAT, INT32};
use crate::num::{ceil_div, groups, size_word, volume, volume_of, w32};
use crate::plan::{
    one_output, output, output_of, planned, run, run_of, simple, Command, CommandView, Kernel, Plan,
    PlanView, Produced, Slot, UnaryOp,
};
use crate::shaders::{broadcast_words, push_broadcast, MAX_RANK};
use crate::shape::{broadcast, joins, joint_shape, Broadcast};
use crate::text;
use vstd::prelude::*;

verus! {

// --- one operand ------------------------------------------------------------------------

/// The plan of a kernel with one invocation for each element of its only input.
pub open spec fn mapped_of(kernel: Kernel, shape: Seq<i64>, n: int, rest: Seq<u32>) -> Option<
    PlanView,
> {
    match output_of(FLOAT, shape, n) {
        None => None,
        Some(out) => Some(
            one_output(
                out,
                if n == 0 {
                    Seq::empty()
                } else {
                    seq![
                        run_of(
                            kernel,
                            seq![Slot::Input(0), Slot::Output(0)],
                            seq![w32(n)] + rest,
                            ceil_div(w32(n) as int, 256),
                            1,
                            1,
                        ),
                    ]
                },
            ),
        ),
    }
}

fn mapped(kernel: Kernel, shape: Vec<i64>, n: usize, rest: Vec<u32>) -> (r: Result<Plan>)
    ensures
        planned(r, mapped_of(kernel, shape@, n as int, rest@)),
{
    let out: Produced = match output(FLOAT, shape, n) {
        Ok(p) => p,
        Err(e) => {
            return Err(e);
        },
    };
    if n == 0 {
        return Ok(simple(out, None));
    }
    let mut push: Vec<u32> = vec![size_word(n)];
    let mut rest = rest;
    let ghost tail = rest@;
    push.append(&mut rest);
    assert(push@ =~= seq![w32(n as int)] + tail);
    let slots: Vec<Slot> = vec![Slot::Input(0), Slot::Output(0)];
    assert(slots@ =~= seq![Slot::Input(0), Slot::Output(0)]);
    Ok(simple(out, Some(run(kernel, slots, push, groups(size_word(n), 256), 1, 1))))
}

/// Plans a function of one variable.
pub fn unary(op: UnaryOp, shape: Vec<i64>, elem_count: usize) -> (r: Result<Plan>)
    ensures
        planned(r, mapped_of(Kernel::Unary(op), shape@, elem_count as int, Seq::empty())),
{
    mapped(Kernel::Unary(op), shape, elem_count, Vec::new())
}

/// The bits of 0.01.
pub const LEAKY_SLOPE: u32 = 0x3c23_d70a;

/// The function of `LeakyRelu`: its slope is an attribute.
pub fn leaky_relu(node: &NodeIr) -> (r: UnaryOp)
    ensures
        r == UnaryOp::LeakyRelu(node.float_attr("alpha"@, LEAKY_SLOPE)),
{
    UnaryOp::LeakyRelu(node.attr_f32("alpha", LEAKY_SLOPE))
}

/// The function of `Gelu`: exact or with the hyperbolic tangent, as the attribute says.
pub open spec fn gelu_of(node: NodeIr) -> Option<UnaryOp> {
    let mode = node.str_attr("approximate"@, "none"@);
    if mode == "none"@ {
        Some(UnaryOp::Gelu)
    } else if mode == "tanh"@ {
        Some(UnaryOp::GeluTanh)
    } else {
        None
    }
}

/// The function of `Gelu`.
pub fn gelu(node: &NodeIr) -> (r: Result<UnaryOp>)
    ensures
        match r {
            Ok(op) => gelu_of(*node) == Some(op),
            Err(e) => gelu_of(*node) is None && e.kind() == Kind::Backend,
        },
{
    let mode = node.attr_str("approximate", "none");
    if text::same(mode, "none") {
        Ok(UnaryOp::Gelu)
    } else if text::same(mode, "tanh") {
        Ok(UnaryOp::GeluTanh)
    } else {
        Err(backend_error("this approximation is not supported"))
    }
}

/// The bits of the negative infinity.
pub const NEG_INFINITY: u32 = 0xff80_0000;

/// The bound of `Clip` on one side: an attribute, else the first element of an input, else
/// `default`.
pub open spec fn bound_of(node: NodeIr, attr: Seq<char>, given: Option<Seq<u32>>, default: u32) -> u32 {
    match given {
        Some(v) if v.len() > 0 => node.float_attr(attr, v[0]),
        _ => node.float_attr(attr, default),
    }
}

fn bound(node: &NodeIr, attr: &str, given: Option<&[u32]>, default: u32) -> (r: u32)
    ensures
        r == bound_of(*node, attr@, optional_bits(given), default),
{
    match given {
        Some(v) => if v.len() > 0 {
            node.attr_f32(attr, v[0])
        } else {
            node.attr_f32(attr, default)
        },
        None => node.attr_f32(attr, default),
    }
}

pub open spec fn optional_bits(v: Option<&[u32]>) -> Option<Seq<u32>> {
    match v {
        Some(s) => Some(s@),
        None => None,
    }
}

/// The plan of `Clip` on floating-point numbers. A missing bound does not constrain.
pub open spec fn clip_of(
    node: NodeIr,
    shape: Seq<i64>,
    n: int,
    lo: Option<Seq<u32>>,
    hi: Option<Seq<u32>>,
) -> Option<PlanView> {
    mapped_of(
        Kernel::Clip,
        shape,
        n,
        seq![bound_of(node, "min"@, lo, NEG_INFINITY), bound_of(node, "max"@, hi, INFINITY)],
    )
}

/// Plans `Clip` on floating-point numbers; `lo` and `hi` hold the elements of the inputs that
/// give the bounds.
pub fn clip(
    node: &NodeIr,
    shape: Vec<i64>,
    elem_count: usize,
    lo: Option<&[u32]>,
    hi: Option<&[u32]>,
) -> (r: Result<Plan>)
    ensures
        planned(
            r,
            clip_of(*node, shape@, elem_count as int, optional_bits(lo), optional_bits(hi)),
        ),
{
    let rest: Vec<u32> = vec![
        bound(node, "min", lo, NEG_INFINITY),
        bound(node, "max", hi, INFINITY),
    ];
    assert(rest@ =~= seq![
        bound_of(*node, "min"@, optional_bits(lo), NEG_INFINITY),
        bound_of(*node, "max"@, optional_bits(hi), INFINITY),
    ]);
    mapped(Kernel::Clip, shape, elem_count, rest)
}

// --- conversion -------------------------------------------------------------------------

/// Whether a conversion between these types can run on the device.
pub open spec fn casts_on_device(from: i32, to: i32) -> bool {
    (from == FLOAT || from == INT32) && (to == FLOAT || to == INT32)
}

/// Whether a conversion between these types can run on the device.
pub fn device_cast(from: i32, to: i32) -> (r: bool)
    ensures
        r == casts_on_device(from, to),
{
    (from == FLOAT || from == INT32) && (to == FLOAT || to == INT32)
}

/// The plan of a conversion on the device: a copy where the type stays.
pub open spec fn cast_of(from: i32, to: i32, shape: Seq<i64>, n: int) -> Option<PlanView> {
    match output_of(to, shape, n) {
        None => None,
        Some(out) => Some(
            one_output(
                out,
                if n == 0 {
                    Seq::empty()
                } else if from == to {
                    seq![CommandView::Copy(Slot::Input(0), Slot::Output(0), 4 * n)]
                } else {
                    seq![
                        run_of(
                            Kernel::Cast,
                            seq![Slot::Input(0), Slot::Output(0)],
                            seq![
                                w32(n),
                                if from == INT32 {
                                    0u32
                                } else {
                                    1u32
                                },
                            ],
                            ceil_div(w32(n) as int, 256),
                            1,
                            1,
                        ),
                    ]
                },
            ),
        ),
    }
}

/// Plans a conversion on the device.
pub fn cast_device(from: i32, to: i32, shape: Vec<i64>, n: usize) -> (r: Result<Plan>)
    requires
        casts_on_device(from, to),
    ensures
        planned(r, cast_of(from, to, shape@, n as int)),
{
    let out: Produced = match output(to, shape, n) {
        Ok(p) => p,
        Err(e) => {
            return Err(e);
        },
    };
    if n == 0 {
        return Ok(simple(out, None));
    }
    if from == to {
        return Ok(
            simple(out, Some(Command::Copy(Slot::Input(0), Slot::Output(0), (4 * n) as u64))),
        );
    }
    let mode: u32 = if from == INT32 {
        0
    } else {
        1
    };
    let push: Vec<u32> = vec![size_word(n), mode];
    assert(push@ =~= seq![w32(n as int), mode]);
    let slots: Vec<Slot> = vec![Slot::Input(0), Slot::Output(0)];
    assert(slots@ =~= seq![Slot::Input(0), Slot::Output(0)]);
    Ok(simple(out, Some(run(Kernel::Cast, slots, push, groups(size_word(n), 256), 1, 1))))
}

// --- two operands -----------------------------------------------------------------------

/// The plan of arithmetic on two operands that broadcast.
pub open spec fn gpu_binary_of(op: BinOp, a: Seq<i64>, b: Seq<i64>) -> Option<PlanView> {
    let shape = joint_shape(a, b);
    if !joins(a, b) || shape.len() > MAX_RANK {
        None
    } else {
        match volume_of(shape) {
            None => None,
            Some(n) => match output_of(FLOAT, shape, n) {
                None => None,
                Some(out) => Some(
                    one_output(
                        out,
                        if n == 0 {
                            Seq::empty()
                        } else {
                            seq![
                                run_of(
                                    Kernel::Binary(op),
                                    seq![Slot::Input(0), Slot::Input(1), Slot::Output(0)],
                                    seq![w32(n), w32(shape.len() as int), 0u32, 0u32]
                                        + broadcast_words(a, b),
                                    ceil_div(w32(n) as int, 256),
                                    1,
                                    1,
                                ),
                            ]
                        },
                    ),
                ),
            },
        }
    }
}

/// Plans arithmetic on two operands that broadcast.
pub fn gpu_binary(op: BinOp, a: &[i64], b: &[i64]) -> (r: Result<Plan>)
    ensures
        planned(r, gpu_binary_of(op, a@, b@)),
{
    let bc: Broadcast = match broadcast(a, b) {
        Ok(bc) => bc,
        Err(_) => {
            return Err(backend_error("the shapes do not broadcast"));
        },
    };
    let rank: usize = bc.out_shape.len();
    if rank > MAX_RANK {
        return Err(backend_error("too many dimensions"));
    }
    let n: usize = match volume(bc.out_shape.as_slice()) {
        Some(n) => n,
        None => {
            return Err(backend_error("the output is too large"));
        },
    };
    let mut push: Vec<u32> = vec![size_word(n), size_word(rank), 0, 0];
    assert(push@ =~= seq![w32(n as int), w32(rank as int), 0u32, 0u32]);
    push_broadcast(&mut push, &bc, Ghost(a@), Ghost(b@));
    let out: Produced = match output(FLOAT, bc.out_shape, n) {
        Ok(p) => p,
        Err(e) => {
            return Err(e);
        },
    };
    if n == 0 {
        return Ok(simple(out, None));
    }
    let slots: Vec<Slot> = vec![Slot::Input(0), Slot::Input(1), Slot::Output(0)];
    assert(slots@ =~= seq![Slot::Input(0), Slot::Input(1), Slot::Output(0)]);
    Ok(simple(out, Some(run(Kernel::Binary(op), slots, push, groups(size_word(n), 256), 1, 1))))
}

} // verus!
