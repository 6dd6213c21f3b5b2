//! Arithmetic on the host that a node asked for.

use crate::error::{backend_error, Kind, Result};
use crate::graph::TensorView;
use crate::host_ops::arith::{
    binary, float_binary_by, int_binary_fits, int_binary_of, int_domain, BinOp,
};
use crate::host_ops::ready::binary_ready;
use crate::host_ops::{gives, HostTensor};
use crate::interp::work::{copied, optional_view};
use vstd::prelude::*;

verus! {

/// Whether `r` is the arithmetic on `a` and `b`: on integers exactly, or refused where a result
/// does not fit; else by `f` on the bits of each pair.
pub open spec fn computes<F: Fn(BinOp, u32, u32) -> u32>(
    a: TensorView,
    b: TensorView,
    op: BinOp,
    f: F,
    r: Result<HostTensor>,
) -> bool {
    if int_domain(a.dtype) && int_domain(b.dtype) {
        if int_binary_fits(a, b, op) {
            gives(r, int_binary_of(a, b, op))
        } else {
            r matches Err(e) && e.kind() == Kind::Backend
        }
    } else {
        float_binary_by(a, b, op, f, r)
    }
}

/// Arithmetic on two tensors.
pub fn arithmetic<F: Fn(BinOp, u32, u32) -> u32>(a: &HostTensor, b: &HostTensor, op: BinOp, f: F) -> (r:
    Result<HostTensor>)
    requires
        forall|x: u32, y: u32| #[trigger] call_requires(f, (op, x, y)),
    ensures
        computes(a@, b@, op, f, r),
{
    if binary_ready(a, b, op) {
        binary(a, b, op, f)
    } else {
        Err(backend_error("a result does not fit 64 bits"))
    }
}

/// Whether `r` is `x` held against a bound, where there is one.
pub open spec fn bounded<F: Fn(BinOp, u32, u32) -> u32>(
    x: TensorView,
    bound: Option<TensorView>,
    op: BinOp,
    f: F,
    r: Result<HostTensor>,
) -> bool {
    match bound {
        None => r matches Ok(t) && t@ == x,
        Some(b) => computes(x, b, op, f, r),
    }
}

/// Whether `r` is `x` raised to `lo` and then lowered to `hi`.
pub open spec fn clipped<F: Fn(BinOp, u32, u32) -> u32>(
    x: TensorView,
    lo: Option<TensorView>,
    hi: Option<TensorView>,
    f: F,
    r: Result<HostTensor>,
) -> bool {
    exists|mid: Result<HostTensor>| #[trigger]
        bounded(x, lo, BinOp::Max, f, mid) && match mid {
            Ok(t) => bounded(t@, hi, BinOp::Min, f, r),
            Err(e) => r == mid,
        }
}

/// Raises a tensor to a lower bound and then lowers it to an upper one.
pub fn clip<F: Fn(BinOp, u32, u32) -> u32 + Copy>(
    x: &HostTensor,
    lo: &Option<HostTensor>,
    hi: &Option<HostTensor>,
    f: F,
) -> (r: Result<HostTensor>)
    requires
        forall|op: BinOp, x: u32, y: u32| #[trigger] call_requires(f, (op, x, y)),
    ensures
        clipped(x@, optional_view(*lo), optional_view(*hi), f, r),
{
    let raised: Result<HostTensor> = match lo {
        Some(b) => arithmetic(x, b, BinOp::Max, f),
        None => Ok(copied(x)),
    };
    assert(bounded(x@, optional_view(*lo), BinOp::Max, f, raised));
    let mid: HostTensor = match raised {
        Ok(t) => t,
        Err(_) => {
            return raised;
        },
    };
    match hi {
        Some(b) => arithmetic(&mid, b, BinOp::Min, f),
        None => Ok(mid),
    }
}

} // verus!
