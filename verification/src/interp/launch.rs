//! Words for what a kernel is started with.

use crate::execution::{device_bytes, law_device_words};
use crate::num::{ceil_div, w32};
use crate::plan::{ProducedView, Storage};
use vstd::prelude::*;

verus! {

/// Whether a kernel reads `v` as its parameter number `i`, where 32 bits hold it.
pub open spec fn told(push: Seq<u32>, i: int, v: int) -> bool {
    0 <= i < push.len() && (0 <= v <= u32::MAX ==> push[i] == v)
}

/// Whether a kernel reads parameter number `i` as yes or no.
pub open spec fn told_whether(push: Seq<u32>, i: int, b: bool) -> bool {
    0 <= i < push.len() && (push[i] != 0) == b && push[i] <= 1
}

/// Whether work groups of `size` items each reach all `n` items, and none of them is idle.
pub open spec fn reach_all(groups: u32, size: int, n: int) -> bool {
    0 <= n <= u32::MAX ==> n <= groups * size && (groups - 1) * size < n
}

/// Whether a tensor is a new one of four-byte elements, with a buffer that holds them.
pub open spec fn fresh_words(out: ProducedView, dtype: i32, shape: Seq<i64>, n: int) -> bool {
    &&& out.dtype == dtype
    &&& out.shape == shape
    &&& out.elem_count == n
    &&& out.storage matches Storage::New(b) && 4 * n <= b && b >= 4
}

pub proof fn lemma_reach(n: int, size: int)
    requires
        size >= 1,
    ensures
        0 <= n <= u32::MAX ==> 0 <= ceil_div(n, size) <= u32::MAX,
        reach_all(ceil_div(w32(n) as int, size) as u32, size, n),
{
    if 0 <= n <= u32::MAX {
        let q = ceil_div(n, size);
        assert(0 <= q && n <= q * size && (q - 1) * size < n) by (nonlinear_arith)
            requires
                q == (n + size - 1) / size,
                size >= 1,
                n >= 0,
        ;
        assert(q <= n) by (nonlinear_arith)
            requires
                (q - 1) * size < n,
                size >= 1,
                n >= 0,
                q >= 0,
        ;
    }
}

pub proof fn lemma_fresh(dtype: i32, n: int)
    requires
        n >= 0,
        device_bytes(dtype, n) is Ok,
        dtype == crate::host_ops::FLOAT || dtype == crate::host_ops::INT32,
    ensures
        4 * n <= device_bytes(dtype, n)->Ok_0 <= u64::MAX,
        device_bytes(dtype, n)->Ok_0 >= 4,
{
    law_device_words(dtype, n);
    assert(crate::graph::code_bits(dtype) == Some(32usize));
}

} // verus!
