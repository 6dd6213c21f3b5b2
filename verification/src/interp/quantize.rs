//! Quantized numbers.

use crate::error::{backend_error, Kind, Result};
use crate::graph::NodeIr;
use crate::host_ops::{FLOAT, INT32, INT8, UINT8};
use crate::interp::norm::{axis_of, front, inner, inner_of};
use crate::num::{
    ceil_div, checked_product, flag, flag_of, groups, product_fits, size_word, volume, volume_of, w32,
    word,
};
use crate::plan::{
    assembled, one_output, output, output_of, planned, run, run_of, simple, Command, Kernel, Plan,
    PlanView, Produced, Scratch, ScratchView, Slot,
};
use crate::shape::product;
use vstd::prelude::*;

verus! {

// --- DynamicQuantizeLinear --------------------------------------------------------------

/// Work groups of the first pass, which looks for the extremes.
pub open spec fn partial_groups(n: int) -> int {
    let g = ceil_div(w32(n) as int, 256);
    if g > 1024 {
        1024
    } else {
        g
    }
}

/// The plan of `DynamicQuantizeLinear`: the extremes of each group, then scale and zero point,
/// then the quantized elements, four to a word. The outputs are the elements, the scale and the
/// zero point.
pub open spec fn dynamic_quantize_of(shape: Seq<i64>, n: int) -> Option<PlanView> {
    let g = partial_groups(n);
    if n == 0 {
        None
    } else {
        match (
            output_of(UINT8, shape, n),
            output_of(FLOAT, Seq::empty(), 1),
            output_of(UINT8, Seq::empty(), 1),
        ) {
            (Some(y), Some(scale), Some(zero)) => Some(
                PlanView {
                    outputs: seq![y, scale, zero],
                    scratch: seq![ScratchView::Temporary(8 * g)],
                    commands: seq![
                        run_of(
                            Kernel::QuantizePartial,
                            seq![Slot::Input(0), Slot::Scratch(0)],
                            seq![w32(n)],
                            g,
                            1,
                            1,
                        ),
                        run_of(
                            Kernel::QuantizeFinal,
                            seq![Slot::Scratch(0), Slot::Output(1), Slot::Output(2)],
                            seq![w32(g)],
                            1,
                            1,
                            1,
                        ),
                        run_of(
                            Kernel::QuantizeApply,
                            seq![Slot::Input(0), Slot::Output(1), Slot::Output(2), Slot::Output(0)],
                            seq![w32(n)],
                            ceil_div(w32(ceil_div(n, 4)) as int, 256),
                            1,
                            1,
                        ),
                    ],
                },
            ),
            _ => None,
        }
    }
}

/// Plans `DynamicQuantizeLinear`. Outputs that the node does not name are given back.
pub fn dynamic_quantize(shape: Vec<i64>, n: usize) -> (r: Result<Plan>)
    ensures
        planned(r, dynamic_quantize_of(shape@, n as int)),
{
    let ghost s = shape@;
    if n == 0 {
        return Err(backend_error("the input is empty"));
    }
    let y: Produced = match output(UINT8, shape, n) {
        Ok(p) => p,
        Err(e) => {
            return Err(e);
        },
    };
    let none: Vec<i64> = Vec::new();
    let none_again: Vec<i64> = Vec::new();
    let (scale, zero): (Produced, Produced) = match (
        output(FLOAT, none, 1),
        output(UINT8, none_again, 1),
    ) {
        (Ok(a), Ok(b)) => (a, b),
        _ => {
            return Err(backend_error("the output cannot be stored"));
        },
    };
    let g: u32 = groups(size_word(n), 256);
    let g: u32 = if g > 1024 {
        1024
    } else {
        g
    };
    let words: usize = if n % 4 == 0 {
        n / 4
    } else {
        n / 4 + 1
    };
    let slots1: Vec<Slot> = vec![Slot::Input(0), Slot::Scratch(0)];
    let slots2: Vec<Slot> = vec![Slot::Scratch(0), Slot::Output(1), Slot::Output(2)];
    let slots3: Vec<Slot> = vec![
        Slot::Input(0),
        Slot::Output(1),
        Slot::Output(2),
        Slot::Output(0),
    ];
    let push1: Vec<u32> = vec![size_word(n)];
    let push2: Vec<u32> = vec![g];
    let push3: Vec<u32> = vec![size_word(n)];
    proof {
        let want = dynamic_quantize_of(s, n as int)->Some_0;
        assert(slots1@ =~= want.commands[0]->Run_0.slots);
        assert(slots2@ =~= want.commands[1]->Run_0.slots);
        assert(slots3@ =~= want.commands[2]->Run_0.slots);
        assert(push1@ =~= want.commands[0]->Run_0.push);
        assert(push2@ =~= want.commands[1]->Run_0.push);
        assert(push3@ =~= want.commands[2]->Run_0.push);
    }
    let commands: Vec<Command> = vec![
        run(Kernel::QuantizePartial, slots1, push1, g, 1, 1),
        run(Kernel::QuantizeFinal, slots2, push2, 1, 1, 1),
        run(Kernel::QuantizeApply, slots3, push3, groups(size_word(words), 256), 1, 1),
    ];
    let plan = assembled(
        vec![y, scale, zero],
        vec![Scratch::Temporary(8 * (g as u64))],
        commands,
    );
    proof {
        let want = dynamic_quantize_of(s, n as int)->Some_0;
        assert(scale@.shape =~= Seq::<i64>::empty());
        assert(zero@.shape =~= Seq::<i64>::empty());
        assert(plan@.outputs =~= want.outputs);
        assert(plan@.scratch =~= want.scratch);
        assert(plan@.commands =~= want.commands);
    }
    Ok(plan)
}

// --- layout of the parameters -----------------------------------------------------------

/// The distance between neighbours along the quantized axis, and the number of scales. One
/// scale for the whole tensor is the case of one element along the axis.
pub open spec fn qdq_layout_of(node: NodeIr, x: Seq<i64>, scale: Seq<i64>) -> Option<(u32, u32)> {
    if !product_fits(scale) {
        None
    } else if product(scale) <= 1 {
        Some((1, 1))
    } else if scale.len() != 1 {
        None
    } else {
        match axis_of(node.int_attr("axis"@, 1), x.len() as int) {
            None => None,
            Some(a) => if x[a] != product(scale) {
                None
            } else {
                match inner_of(x, a) {
                    Some(i) => Some((w32(i), w32(product(scale)))),
                    None => None,
                }
            },
        }
    }
}

/// The layout of the quantization parameters.
pub fn qdq_layout(node: &NodeIr, x_shape: &[i64], scale_shape: &[i64]) -> (r: Result<(u32, u32)>)
    ensures
        match r {
            Ok(p) => qdq_layout_of(*node, x_shape@, scale_shape@) == Some(p),
            Err(e) => qdq_layout_of(*node, x_shape@, scale_shape@) is None && e.kind()
                == Kind::Backend,
        },
{
    let count: i64 = match checked_product(scale_shape) {
        Some(p) => p,
        None => {
            return Err(backend_error("the scale is too large"));
        },
    };
    if count <= 1 {
        return Ok((1, 1));
    }
    if scale_shape.len() != 1 {
        return Err(backend_error("the scale does not lie along one axis"));
    }
    let axis: usize = match front(node.attr_i64("axis", 1), x_shape.len()) {
        Some(a) => a,
        None => {
            return Err(backend_error("the axis is not one of the tensor's"));
        },
    };
    if x_shape[axis] != count {
        return Err(backend_error("the scale does not suit the axis"));
    }
    match inner(x_shape, axis) {
        Some(i) => Ok((size_word(i), word(count))),
        None => Err(backend_error("the shape is too large")),
    }
}

/// The parameters of both directions.
pub open spec fn qdq_words(n: int, layout: (u32, u32), signed: bool, has_zero: bool) -> Seq<u32> {
    seq![w32(n), layout.0, layout.1, flag_of(signed), flag_of(has_zero)]
}

pub fn qdq_push(n: usize, layout: (u32, u32), signed: bool, has_zero: bool) -> (r: Vec<u32>)
    ensures
        r@ == qdq_words(n as int, layout, signed, has_zero),
{
    let r: Vec<u32> = vec![size_word(n), layout.0, layout.1, flag(signed), flag(has_zero)];
    assert(r@ =~= qdq_words(n as int, layout, signed, has_zero));
    r
}

pub open spec fn qdq_slots(has_zero: bool) -> Seq<Slot> {
    seq![
        Slot::Input(0),
        Slot::Input(1),
        if has_zero {
            Slot::Input(2)
        } else {
            Slot::Zero
        },
        Slot::Output(0),
    ]
}

fn qdq_slots_of(has_zero: bool) -> (r: Vec<Slot>)
    ensures
        r@ == qdq_slots(has_zero),
{
    let zero: Slot = if has_zero {
        Slot::Input(2)
    } else {
        Slot::Zero
    };
    let r: Vec<Slot> = vec![Slot::Input(0), Slot::Input(1), zero, Slot::Output(0)];
    assert(r@ =~= qdq_slots(has_zero));
    r
}

// --- DequantizeLinear -------------------------------------------------------------------

/// The plan of `DequantizeLinear`. Bytes are packed four to a word, integers of four bytes are
/// not and have a kernel of their own.
pub open spec fn dequantize_plan_of(
    node: NodeIr,
    x: Seq<i64>,
    dtype: i32,
    scale: Seq<i64>,
    has_zero: bool,
) -> Option<PlanView> {
    match (qdq_layout_of(node, x, scale), volume_of(x)) {
        (Some(layout), Some(n)) => if dtype != UINT8 && dtype != INT8 && dtype != INT32 {
            None
        } else {
            match output_of(FLOAT, x, n) {
                None => None,
                Some(out) => Some(
                    one_output(
                        out,
                        if n == 0 {
                            Seq::empty()
                        } else {
                            seq![
                                run_of(
                                    if dtype == INT32 {
                                        Kernel::DequantizeInt32
                                    } else {
                                        Kernel::Dequantize
                                    },
                                    qdq_slots(has_zero),
                                    qdq_words(n, layout, dtype == INT8, has_zero),
                                    ceil_div(w32(n) as int, 256),
                                    1,
                                    1,
                                ),
                            ]
                        },
                    ),
                ),
            }
        },
        _ => None,
    }
}

/// Plans `DequantizeLinear`.
pub fn dequantize_linear(
    node: &NodeIr,
    x_shape: Vec<i64>,
    dtype: i32,
    scale_shape: &[i64],
    has_zero: bool,
) -> (r: Result<Plan>)
    ensures
        planned(r, dequantize_plan_of(*node, x_shape@, dtype, scale_shape@, has_zero)),
{
    let layout: (u32, u32) = match qdq_layout(node, x_shape.as_slice(), scale_shape) {
        Ok(l) => l,
        Err(e) => {
            return Err(e);
        },
    };
    if dtype != UINT8 && dtype != INT8 && dtype != INT32 {
        return Err(backend_error("this data type cannot be dequantized"));
    }
    let n: usize = match volume(x_shape.as_slice()) {
        Some(n) => n,
        None => {
            return Err(backend_error("the input is too large"));
        },
    };
    let out: Produced = match output(FLOAT, x_shape, n) {
        Ok(p) => p,
        Err(e) => {
            return Err(e);
        },
    };
    if n == 0 {
        return Ok(simple(out, None));
    }
    let kernel: Kernel = if dtype == INT32 {
        Kernel::DequantizeInt32
    } else {
        Kernel::Dequantize
    };
    let push: Vec<u32> = qdq_push(n, layout, dtype == INT8, has_zero);
    Ok(
        simple(
            out,
            Some(run(kernel, qdq_slots_of(has_zero), push, groups(size_word(n), 256), 1, 1)),
        ),
    )
}

// --- QuantizeLinear ---------------------------------------------------------------------

/// The type of the quantized elements: that of the zero point, else an attribute, else
/// unsigned bytes.
pub open spec fn quantized_dtype(node: NodeIr, zero: Option<i32>) -> i32 {
    match zero {
        Some(d) => d,
        None => node.int_attr("output_dtype"@, UINT8 as i64) as i32,
    }
}

/// The plan of `QuantizeLinear`: one invocation for each word of four elements. `zero` is the
/// type of the zero point, where there is one.
pub open spec fn quantize_plan_of(
    node: NodeIr,
    x: Seq<i64>,
    scale: Seq<i64>,
    zero: Option<i32>,
) -> Option<PlanView> {
    let dtype = quantized_dtype(node, zero);
    match (qdq_layout_of(node, x, scale), volume_of(x)) {
        (Some(layout), Some(n)) => if dtype != UINT8 && dtype != INT8 {
            None
        } else {
            match output_of(dtype, x, n) {
                None => None,
                Some(out) => Some(
                    one_output(
                        out,
                        if n == 0 {
                            Seq::empty()
                        } else {
                            seq![
                                run_of(
                                    Kernel::Quantize,
                                    qdq_slots(zero is Some),
                                    qdq_words(n, layout, dtype == INT8, zero is Some),
                                    ceil_div(ceil_div(w32(n) as int, 4), 256),
                                    1,
                                    1,
                                ),
                            ]
                        },
                    ),
                ),
            }
        },
        _ => None,
    }
}

/// Plans `QuantizeLinear`.
pub fn quantize_linear(
    node: &NodeIr,
    x_shape: Vec<i64>,
    scale_shape: &[i64],
    zero: Option<i32>,
) -> (r: Result<Plan>)
    ensures
        planned(r, quantize_plan_of(*node, x_shape@, scale_shape@, zero)),
{
    let layout: (u32, u32) = match qdq_layout(node, x_shape.as_slice(), scale_shape) {
        Ok(l) => l,
        Err(e) => {
            return Err(e);
        },
    };
    #[verifier::truncate]
    let dtype: i32 = match zero {
        Some(d) => d,
        None => node.attr_i64("output_dtype", UINT8 as i64) as i32,
    };
    if dtype != UINT8 && dtype != INT8 {
        return Err(backend_error("only bytes can be the result"));
    }
    let n: usize = match volume(x_shape.as_slice()) {
        Some(n) => n,
        None => {
            return Err(backend_error("the input is too large"));
        },
    };
    let out: Produced = match output(dtype, x_shape, n) {
        Ok(p) => p,
        Err(e) => {
            return Err(e);
        },
    };
    if n == 0 {
        return Ok(simple(out, None));
    }
    let has_zero: bool = zero.is_some();
    let push: Vec<u32> = qdq_push(n, layout, dtype == INT8, has_zero);
    Ok(
        simple(
            out,
            Some(
                run(
                    Kernel::Quantize,
                    qdq_slots_of(has_zero),
                    push,
                    groups(groups(size_word(n), 4), 256),
                    1,
                    1,
                ),
            ),
        ),
    )
}

} // verus!
