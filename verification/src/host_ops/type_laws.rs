//! What converting between types keeps.

use crate::bytes::{lemma_all_le32, lemma_all_le32_len, signed32, u32_at};
use crate::error::Kind;
use crate::graph::TensorView;
use crate::host_ops::{
    cast_of, elements, fault, floats_of, ints_of, is_readable, law_float_round_trip,
    law_int_round_trip, lemma_sound_len, low32, returned_of, BOOL, FLOAT, INT32, INT64, INT8, UINT8,
};
use vstd::prelude::*;

verus! {

/// **A tensor of numbers can be cast** to integers of 64 or 32 bits, to truth values and to single
/// precision, and to nothing else but its own type; it keeps its shape.
pub proof fn law_cast_succeeds(t: TensorView, to: i32)
    requires
        fault(t) is None,
        is_readable(t.dtype),
    ensures
        (cast_of(t, to) is Ok) == (to == INT64 || to == INT32 || to == BOOL || to == FLOAT || to
            == t.dtype),
        cast_of(t, to) matches Ok(c) ==> c.dtype == to && c.shape == t.shape,
        cast_of(t, to) matches Err(k) ==> k == Kind::Tensor,
{
}

/// **A cast keeps the numbers**: 64-bit integers are those that the elements are read as, 32-bit
/// integers are the same up to what they cannot hold, truth values say which are not zero, and
/// single-precision numbers are those that the elements are read as.
pub proof fn law_cast_keeps_numbers(t: TensorView, to: i32, i: int)
    requires
        cast_of(t, to) is Ok,
        ints_of(t) is Ok,
        64 * elements(t) + 7 <= usize::MAX,
        0 <= i < elements(t),
    ensures
        ({
            let c = cast_of(t, to)->Ok_0;
            let x = ints_of(t)->Ok_0[i];
            &&& fault(c) is None
            &&& elements(c) == elements(t)
            &&& to == INT64 ==> ints_of(c)->Ok_0[i] == x
            &&& to == INT32 ==> (ints_of(c)->Ok_0[i] - x) % 0x1_0000_0000 == 0
            &&& to == INT32 && i32::MIN <= x <= i32::MAX ==> ints_of(c)->Ok_0[i] == x
            &&& to == BOOL && t.dtype != BOOL ==> ints_of(c)->Ok_0[i] == (if x != 0 {
                1int
            } else {
                0
            })
            &&& to == FLOAT ==> floats_of(c)->Ok_0[i] == floats_of(t)->Ok_0[i]
        }),
{
    let c = cast_of(t, to)->Ok_0;
    let v = ints_of(t)->Ok_0;
    lemma_sound_len(t);
    if t.dtype == to {
        if to == INT32 {
            crate::host_ops::lemma_int_range(to, t.data, i);
        }
    } else if to == INT64 {
        law_int_round_trip(t.shape, v);
    } else if to == INT32 {
        let words = v.map_values(|e: i64| low32(e));
        lemma_all_le32_len(words);
        lemma_all_le32(words, i);
        lemma_low32(v[i]);
    } else if to == FLOAT {
        law_float_round_trip(t.shape, floats_of(t)->Ok_0);
    }
}

proof fn lemma_low32(v: i64)
    ensures
        (signed32(low32(v) as int) - v) % 0x1_0000_0000 == 0,
        i32::MIN <= v <= i32::MAX ==> signed32(low32(v) as int) == v,
        i32::MIN <= signed32(low32(v) as int) <= i32::MAX,
{
    let r = v as int % 0x1_0000_0000;
    let q = v as int / 0x1_0000_0000;
    assert(v == q * 0x1_0000_0000 + r);
    assert((r - v) == (-q) * 0x1_0000_0000);
    assert((r - 0x1_0000_0000 - v) == (-q - 1) * 0x1_0000_0000);
    assert(((-q) * 0x1_0000_0000) % 0x1_0000_0000 == 0);
    assert(((-q - 1) * 0x1_0000_0000) % 0x1_0000_0000 == 0);
}

/// **What returns to bytes keeps the numbers** that a byte can hold, and the low eight bits of
/// others; every other type is a cast.
pub proof fn law_returned_keeps_numbers(t: TensorView, to: i32, i: int)
    requires
        ints_of(t) is Ok,
        64 * elements(t) + 7 <= usize::MAX,
        0 <= i < elements(t),
    ensures
        to != UINT8 && to != INT8 ==> returned_of(t, to) == cast_of(t, to),
        to == UINT8 || to == INT8 ==> {
            let c = returned_of(t, to)->Ok_0;
            let x = ints_of(t)->Ok_0[i];
            &&& returned_of(t, to) is Ok
            &&& c.dtype == to
            &&& c.shape == t.shape
            &&& fault(c) is None
            &&& to == UINT8 && 0 <= x < 256 ==> ints_of(c)->Ok_0[i] == x
            &&& to == INT8 && -128 <= x < 128 ==> ints_of(c)->Ok_0[i] == x
            &&& (ints_of(c)->Ok_0[i] - x) % 256 == 0
        },
{
    lemma_sound_len(t);
    if to == UINT8 || to == INT8 {
        let x = ints_of(t)->Ok_0[i];
        let r = x as int % 256;
        let q = x as int / 256;
        assert(x == q * 256 + r);
        assert((r - x) == (-q) * 256);
        assert((r - 256 - x) == (-q - 1) * 256);
        assert(((-q) * 256) % 256 == 0);
        assert(((-q - 1) * 256) % 256 == 0);
    }
}

/// **Types are read as what they are**: bytes with and without a sign, truth values, and words of
/// four and eight bytes, the lowest first.
pub proof fn law_elements_are_read(t: TensorView, i: int)
    requires
        ints_of(t) is Ok,
        0 <= i < elements(t),
    ensures
        ({
            let x = ints_of(t)->Ok_0[i];
            &&& ints_of(t)->Ok_0.len() == elements(t)
            &&& t.dtype == UINT8 ==> x == t.data[i]
            &&& t.dtype == INT8 ==> -128 <= x < 128 && (x - t.data[i]) % 256 == 0
            &&& t.dtype == BOOL ==> (x == 1) == (t.data[i] != 0) && (x == 0) == (t.data[i] == 0)
            &&& t.dtype == INT32 ==> i32::MIN <= x <= i32::MAX && (x - (t.data[4 * i]
                + 0x100 * t.data[4 * i + 1] + 0x1_0000 * t.data[4 * i + 2] + 0x100_0000 * t.data[4 * i
                + 3])) % 0x1_0000_0000 == 0
        }),
{
    crate::host_ops::lemma_int_range(t.dtype, t.data, i);
    reveal(u32_at);
}

} // verus!
