//! Parameters of kernels that several of them share.

use crate::bytes::{all_le32, push_u32};
use crate::shape::{joint_shape, joint_stride, unit_suffix, Broadcast};
use vstd::prelude::*;

verus! {

/// The largest number of dimensions that a kernel can walk.
pub const MAX_RANK: usize = 8;

/// The values, followed by zeros up to the largest number of dimensions.
pub open spec fn padded(values: Seq<u32>) -> Seq<u32> {
    Seq::new(
        MAX_RANK as nat,
        |d: int|
            if d < values.len() {
                values[d]
            } else {
                0u32
            },
    )
}

/// Appends the values as words, followed by zeros up to the largest number of dimensions.
pub fn extend_padded(push: &mut Vec<u32>, values: &[u32])
    ensures
        final(push)@ == old(push)@ + padded(values@),
{
    let n: usize = values.len();
    let mut d: usize = 0;
    let ghost was = push@;
    assert(was + padded(values@).take(0) =~= was);
    while d < MAX_RANK
        invariant
            d <= MAX_RANK,
            n == values@.len(),
            push@ == was + padded(values@).take(d as int),
        decreases MAX_RANK - d,
    {
        push.push(
            if d < n {
                values[d]
            } else {
                0
            },
        );
        assert(push@ =~= was + padded(values@).take(d + 1));
        d += 1;
    }
    assert(padded(values@).take(MAX_RANK as int) =~= padded(values@));
}

/// Appends the bytes of the values, followed by zeros up to the largest number of dimensions.
pub fn push_vec4s(push: &mut Vec<u8>, values: &[u32])
    ensures
        final(push)@ == old(push)@ + all_le32(padded(values@)),
{
    let n: usize = values.len();
    let mut d: usize = 0;
    let ghost was = push@;
    assert(padded(values@).take(0) =~= Seq::empty());
    assert(was + all_le32(padded(values@).take(0)) =~= was);
    while d < MAX_RANK
        invariant
            d <= MAX_RANK,
            n == values@.len(),
            push@ == was + all_le32(padded(values@).take(d as int)),
        decreases MAX_RANK - d,
    {
        let ghost before = push@;
        let v: u32 = if d < n {
            values[d]
        } else {
            0
        };
        push_u32(push, v);
        proof {
            let next = padded(values@).take(d + 1);
            assert(next.drop_last() =~= padded(values@).take(d as int));
            assert(next.last() == v);
            assert(push@ =~= was + all_le32(next));
        }
        d += 1;
    }
    assert(padded(values@).take(MAX_RANK as int) =~= padded(values@));
}

/// The strides of a broadcast as the kernels read them: those of the result, then those of
/// the two operands.
pub open spec fn broadcast_words(a: Seq<i64>, b: Seq<i64>) -> Seq<u32> {
    let out = joint_shape(a, b);
    let r = out.len() as int;
    padded(Seq::new(r as nat, |k: int| unit_suffix(out, k + 1) as u32)) + padded(
        Seq::new(r as nat, |k: int| joint_stride(a, r, k) as u32),
    ) + padded(Seq::new(r as nat, |k: int| joint_stride(b, r, k) as u32))
}

/// Whether `bc` is how `a` and `b` broadcast.
pub open spec fn broadcasts(bc: Broadcast, a: Seq<i64>, b: Seq<i64>) -> bool {
    let r = bc.out_shape@.len() as int;
    &&& bc.out_shape@ == joint_shape(a, b)
    &&& bc.out_strides@.len() == r
    &&& bc.a_strides@.len() == r
    &&& bc.b_strides@.len() == r
    &&& forall|k: int| 0 <= k < r ==> #[trigger] bc.out_strides@[k] == unit_suffix(bc.out_shape@, k + 1)
    &&& forall|k: int| 0 <= k < r ==> #[trigger] bc.a_strides@[k] == joint_stride(a, r, k)
    &&& forall|k: int| 0 <= k < r ==> #[trigger] bc.b_strides@[k] == joint_stride(b, r, k)
}

/// Appends the strides of a broadcast.
pub(crate) fn push_broadcast(
    push: &mut Vec<u32>,
    bc: &Broadcast,
    Ghost(a): Ghost<Seq<i64>>,
    Ghost(b): Ghost<Seq<i64>>,
)
    requires
        broadcasts(*bc, a, b),
    ensures
        final(push)@ == old(push)@ + broadcast_words(a, b),
{
    let ghost was = push@;
    extend_padded(push, bc.out_strides.as_slice());
    extend_padded(push, bc.a_strides.as_slice());
    extend_padded(push, bc.b_strides.as_slice());
    proof {
        let out = joint_shape(a, b);
        let r = out.len() as int;
        assert(bc.out_strides@ =~= Seq::new(r as nat, |k: int| unit_suffix(out, k + 1) as u32));
        assert(bc.a_strides@ =~= Seq::new(r as nat, |k: int| joint_stride(a, r, k) as u32));
        assert(bc.b_strides@ =~= Seq::new(r as nat, |k: int| joint_stride(b, r, k) as u32));
        assert(push@ =~= was + broadcast_words(a, b));
    }
}

} // verus!
