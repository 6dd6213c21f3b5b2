//! What matrix products are started with.

use crate::graph::{NodeIr, TensorView};
use crate::host_ops::{FLOAT, INT32, INT8, UINT8};
use crate::interp::conv_laws::takes_bias;
use crate::interp::int_product::{
    byte_mask, conv_integer_of, int_product_of, is_pointwise, matmul_integer_of, pack_columns,
    word_mask, IntOperands, IntProblem, IntTuning,
};
use crate::interp::launch::{fresh_words, lemma_fresh, lemma_reach, reach_all, told};
use crate::interp::product::{
    gemm_of, matmul_of, nbits_of, stack, Extent, MatMulTuning, NbitsTuning,
};
use crate::interp::window::GeomView;
use crate::num::volume_of;
use crate::plan::{CommandView, DispatchView, Kernel, NbitsKind, PlanView, ScratchView, Slot};
use crate::shaders::MAX_RANK;
use crate::shape::{joint_shape, joint_stride, product, unit_suffix};
use vstd::prelude::*;

verus! {

// --- floating point ---------------------------------------------------------------------

/// Whether the first two buffers of a kernel are the left and the right operand, in this order,
/// and the third is `to`.
pub open spec fn multiplies(d: DispatchView, to: Slot) -> bool {
    d.slots == seq![Slot::Input(0), Slot::Input(1), to]
}

/// Whether a kernel is told, from parameter `at` on, how to walk a stack of shape `a`, of which
/// the result has `r` dimensions: for each of them how far apart neighbours are, and zeros for
/// those that there are not.
pub open spec fn told_strides(push: Seq<u32>, at: int, a: Seq<i64>, r: int) -> bool {
    forall|k: int|
        0 <= k < MAX_RANK ==> if k < r {
            told(push, #[trigger] (at + k), joint_stride(a, r, k))
        } else {
            push[at + k] == 0
        }
}

/// **A matrix product multiplies the left operand by the right one**: A `[.., m, k]` and B
/// `[.., k, n]` give `[.., m, n]`. Whatever the tuning, the kernel that takes the operands takes
/// A first; it is told m, k and n, and its work groups reach every row, column and matrix.
pub proof fn law_matmul_is_started(a: Seq<i64>, b: Seq<i64>, t: MatMulTuning, p: PlanView)
    requires
        matmul_of(a, b, t) == Some(p),
        t.tile > 0,
        t.small_tile > 0,
        t.vector_cols > 0,
        a.len() >= 2,
        b.len() >= 2,
        a[a.len() - 2] > 0,
        b.last() > 0,
    ensures
        a.last() == b[b.len() - 2],
        p.outputs.len() == 1,
        ({
            let (m, k, n) = (a[a.len() - 2] as int, a.last() as int, b.last() as int);
            let batch = joint_shape(stack(a), stack(b));
            let count = if product(batch) > 0 {
                product(batch)
            } else {
                1
            };
            let r = batch.len() as int;
            let d = p.commands[0]->Run_0;
            &&& fresh_words(
                p.outputs[0],
                FLOAT,
                batch.push(m as i64).push(n as i64),
                count * m * n,
            )
            &&& p.commands.len() >= 1
            &&& p.commands[0] is Run
            &&& t.vector is None ==> {
                let tile = if t.blocked {
                    t.tile as int
                } else {
                    t.small_tile as int
                };
                &&& p.commands.len() == 1
                &&& p.scratch.len() == 0
                &&& d.kernel == if t.blocked {
                    Kernel::MatMul
                } else {
                    Kernel::MatMulSmall
                }
                &&& multiplies(d, Slot::Output(0))
                &&& d.push.len() == 4 + 3 * MAX_RANK
                &&& told(d.push, 0, m)
                &&& told(d.push, 1, k)
                &&& told(d.push, 2, n)
                &&& told(d.push, 3, r)
                &&& forall|i: int|
                    0 <= i < r ==> told(d.push, #[trigger] (4 + i), unit_suffix(batch, i + 1))
                &&& told_strides(d.push, 4 + MAX_RANK, stack(a), r)
                &&& told_strides(d.push, 4 + 2 * MAX_RANK, stack(b), r)
                &&& reach_all(d.grid.x, tile, n)
                &&& reach_all(d.grid.y, tile, m)
                &&& d.grid.z == count
            }
            &&& t.vector is Some ==> {
                let split = t.vector->Some_0;
                &&& d.kernel == Kernel::MatVec
                &&& d.push.len() == 4
                &&& told(d.push, 0, k)
                &&& told(d.push, 1, n)
                &&& told(d.push, 2, split as int)
                &&& reach_all(d.grid.x, t.vector_cols as int, n)
                &&& d.grid.y == split
                &&& d.grid.z == 1
                &&& split <= 1 ==> {
                    &&& p.commands.len() == 1
                    &&& p.scratch.len() == 0
                    &&& multiplies(d, Slot::Output(0))
                }
                &&& split > 1 ==> {
                    let e = p.commands[1]->Run_0;
                    &&& multiplies(d, Slot::Scratch(0))
                    &&& p.scratch.len() == 1
                    &&& p.scratch[0] matches ScratchView::Temporary(size) && size >= 4 * (split * n)
                    &&& p.commands.len() == 2
                    &&& p.commands[1] is Run
                    &&& e.kernel == Kernel::MatVecReduce
                    &&& e.slots == seq![Slot::Scratch(0), Slot::Output(0)]
                    &&& e.push == d.push
                    &&& reach_all(e.grid.x, 256, n)
                    &&& e.grid.y == 1
                    &&& e.grid.z == 1
                }
            }
        }),
{
    let (m, n) = (a[a.len() - 2] as int, b.last() as int);
    assert(a.last() == a[a.len() - 1] && b.last() == b[b.len() - 1]);
    let batch = joint_shape(stack(a), stack(b));
    let count = if product(batch) > 0 {
        product(batch)
    } else {
        1
    };
    assert(count * m * n >= 0) by (nonlinear_arith)
        requires
            count >= 1,
            m >= 0,
            n >= 0,
    ;
    lemma_fresh(FLOAT, count * m * n);
    lemma_reach(n, t.tile as int);
    lemma_reach(n, t.small_tile as int);
    lemma_reach(m, t.tile as int);
    lemma_reach(m, t.small_tile as int);
    lemma_reach(n, t.vector_cols as int);
    lemma_reach(n, 256);
    if t.vector is Some && t.vector->Some_0 > 1 {
        let split = t.vector->Some_0 as int;
        assert(split * n >= 0) by (nonlinear_arith)
            requires
                split >= 0,
                n >= 0,
        ;
        lemma_fresh(FLOAT, split * n);
    }
    if t.vector is None {
        let d = p.commands[0]->Run_0;
        let r = batch.len() as int;
        let words = crate::shaders::broadcast_words(stack(a), stack(b));
        assert(words.len() == 3 * MAX_RANK);
        assert forall|i: int| 0 <= i < r implies told(
            d.push,
            #[trigger] (4 + i),
            unit_suffix(batch, i + 1),
        ) by {
            assert(d.push[4 + i] == words[i]);
        }
        assert forall|k: int| 0 <= k < MAX_RANK implies if k < r {
            told(d.push, #[trigger] (4 + MAX_RANK + k), joint_stride(stack(a), r, k))
        } else {
            d.push[4 + MAX_RANK + k] == 0
        } by {
            assert(d.push[4 + MAX_RANK + k] == words[MAX_RANK + k]);
        }
        assert forall|k: int| 0 <= k < MAX_RANK implies if k < r {
            told(d.push, #[trigger] (4 + 2 * MAX_RANK + k), joint_stride(stack(b), r, k))
        } else {
            d.push[4 + 2 * MAX_RANK + k] == 0
        } by {
            assert(d.push[4 + 2 * MAX_RANK + k] == words[2 * MAX_RANK + k]);
        }
    }
}

/// The rows and columns of a matrix, where `turned` says that it is transposed.
pub open spec fn as_used(s: Seq<i64>, turned: bool) -> (int, int) {
    if turned {
        (s[1] as int, s[0] as int)
    } else {
        (s[0] as int, s[1] as int)
    }
}

/// **`Gemm` is `alpha A' B' + beta C`**: A first, then B, then C where there is one; the kernel is
/// told the sizes of the operands as they are used, which of them are transposed, whether there
/// is a C and how many rows and columns it has, and both factors.
pub proof fn law_gemm_is_started(
    node: NodeIr,
    a: Seq<i64>,
    b: Seq<i64>,
    c: Option<Seq<i64>>,
    tile: u32,
    p: PlanView,
)
    requires
        gemm_of(node, a, b, c, tile) == Some(p),
        tile > 0,
    ensures
        a.len() == 2,
        b.len() == 2,
        p.outputs.len() == 1,
        p.scratch.len() == 0,
        ({
            let ta = node.int_attr("transA"@, 0) != 0;
            let tb = node.int_attr("transB"@, 0) != 0;
            let (m, k) = as_used(a, ta);
            let (kb, n) = as_used(b, tb);
            let d = p.commands[0]->Run_0;
            &&& k == kb
            &&& m >= 0 && n >= 0 ==> fresh_words(
                p.outputs[0],
                FLOAT,
                seq![m as i64, n as i64],
                m * n,
            )
            &&& m >= 0 && n >= 0 ==> (p.commands.len() == 0) == (m * n == 0)
            &&& p.commands.len() > 0 ==> {
                &&& p.commands.len() == 1
                &&& p.commands[0] is Run
                &&& d.kernel == Kernel::Gemm
                &&& d.slots.len() == 4
                &&& d.slots[0] == Slot::Input(0)
                &&& d.slots[1] == Slot::Input(1)
                &&& takes_bias(d, 2, c is Some)
                &&& d.slots[3] == Slot::Output(0)
                &&& d.push.len() == 8
                &&& told(d.push, 0, m)
                &&& told(d.push, 1, k)
                &&& told(d.push, 2, n)
                &&& (d.push[3] % 2 == 1) == ta
                &&& (d.push[3] / 2 % 2 == 1) == tb
                &&& (d.push[3] / 4 == 1) == (c is Some)
                &&& d.push[3] < 8
                &&& d.push[4] == node.float_attr("alpha"@, 0x3f80_0000)
                &&& d.push[5] == node.float_attr("beta"@, 0x3f80_0000)
                &&& c matches Some(s) ==> {
                    &&& s.len() <= 2
                    &&& s.len() == 2 && s[0] >= 1 && s[1] >= 1 ==> told(d.push, 6, s[0] as int) && told(
                        d.push,
                        7,
                        s[1] as int,
                    )
                    &&& s.len() == 1 && s[0] >= 1 ==> told(d.push, 6, 1) && told(
                        d.push,
                        7,
                        s[0] as int,
                    )
                    &&& s.len() == 0 ==> told(d.push, 6, 1) && told(d.push, 7, 1)
                }
                &&& reach_all(d.grid.x, tile as int, n)
                &&& reach_all(d.grid.y, tile as int, m)
                &&& d.grid.z == 1
            }
        }),
{
    let ta = node.int_attr("transA"@, 0) != 0;
    let tb = node.int_attr("transB"@, 0) != 0;
    let (m, k) = as_used(a, ta);
    let (kb, n) = as_used(b, tb);
    let s = seq![m as i64, n as i64];
    lemma_product_of_two(s);
    if m >= 0 && n >= 0 {
        assert(m * n >= 0) by (nonlinear_arith)
            requires
                m >= 0,
                n >= 0,
        ;
        lemma_fresh(FLOAT, m * n);
    }
    lemma_reach(n, tile as int);
    lemma_reach(m, tile as int);
}

pub proof fn lemma_product_of_two(s: Seq<i64>)
    requires
        s.len() == 2,
    ensures
        product(s) == s[0] * s[1],
{
    let a = s.drop_last();
    let b = a.drop_last();
    assert(product(b) == 1);
    assert(a.last() == s[0] && s.last() == s[1]);
    assert(product(a) == product(b) * s[0]);
    assert(product(s) == product(a) * s[1]);
    assert(1 * s[0] == s[0]);
}

/// **The product with four-bit weights** takes the activations, the weights and their scales in
/// this order: N columns of K weights, two to a byte, with a scale for every 32. Every row of
/// activations gives a row of N numbers, and the work groups of every kernel reach all of them.
pub proof fn law_nbits_is_started(
    node: NodeIr,
    a: Seq<i64>,
    a_count: usize,
    w: Extent,
    scales: Extent,
    t: NbitsTuning,
    p: PlanView,
)
    requires
        nbits_of(node, a, a_count, w, scales, t) == Some(p),
        t.group > 0,
    ensures
        node.opt_int_attr("K"@) is Some,
        node.opt_int_attr("N"@) is Some,
        node.opt_int_attr("bits"@) == Some(4i64),
        node.opt_int_attr("block_size"@) == Some(32i64),
        ({
            let k = node.opt_int_attr("K"@)->Some_0 as int;
            let n = node.opt_int_attr("N"@)->Some_0 as int;
            let m = a_count as int / k;
            let d = p.commands[0]->Run_0;
            &&& k > 0
            &&& a.len() > 0
            &&& a.last() == k
            &&& w.dtype == UINT8
            &&& scales.dtype == FLOAT
            &&& w.elem_count == n * k / 2
            &&& scales.elem_count == n * k / 32
            &&& p.outputs.len() == 1
            &&& fresh_words(p.outputs[0], FLOAT, a.drop_last().push(n as i64), m * n)
            &&& p.scratch.len() == 0
            &&& (p.commands.len() == 0) == (m * n == 0)
            &&& m * n > 0 ==> {
                &&& p.commands.len() == 1
                &&& p.commands[0] is Run
                &&& d.slots == seq![
                    Slot::Input(0),
                    Slot::Input(1),
                    Slot::Input(2),
                    Slot::Output(0),
                ]
                &&& d.push.len() == 3
                &&& told(d.push, 0, m)
                &&& told(d.push, 1, k)
                &&& told(d.push, 2, n)
                &&& match d.kernel {
                    Kernel::MatMulNbits(kind, wave) => {
                        &&& (kind == NbitsKind::Scalar) == t.scalar
                        &&& (kind == NbitsKind::SplitK) == (!t.scalar && k % 32 == 0 && (
                        t.split_max_rows == 0 || (d.push[0] <= t.split_max_rows)))
                        &&& wave is Some ==> wave == t.wave
                        &&& wave is None ==> t.wave is None || t.wave == Some(t.default_wave)
                        &&& match kind {
                            NbitsKind::Scalar => reach_all(d.grid.x, t.group as int, m * n)
                                && d.grid.y == 1 && d.grid.z == 1,
                            NbitsKind::SplitK => reach_all(d.grid.x, 1, m) && d.grid.y == 1
                                && reach_all(d.grid.z, 32, n),
                            NbitsKind::Tiled => reach_all(d.grid.x, 1, m * n) && d.grid.y == 1
                                && d.grid.z == 1,
                        }
                    },
                    _ => false,
                }
            }
        }),
{
    let k = node.opt_int_attr("K"@)->Some_0 as int;
    let n = node.opt_int_attr("N"@)->Some_0 as int;
    let m = a_count as int / k;
    assert(m >= 0) by (nonlinear_arith)
        requires
            m == a_count as int / k,
            k > 0,
    ;
    assert(m * n >= 0) by (nonlinear_arith)
        requires
            m >= 0,
            n >= 0,
    ;
    lemma_fresh(FLOAT, m * n);
    lemma_reach(m * n, t.group as int);
    lemma_reach(n, 32);
}

// --- integers ---------------------------------------------------------------------------

/// What an integer product works on: which buffers hold the left and the right operand and their
/// zero points, its sizes, and which operands are signed.
pub struct IntegerCall {
    pub left: Slot,
    pub right: Slot,
    pub left_zero: Slot,
    pub right_zero: Slot,
    pub m: int,
    pub k: int,
    pub n: int,
    /// Whether the bytes of the left operand are still signed, and have to be flipped.
    pub flip_left: bool,
    pub left_signed: bool,
    pub right_signed: bool,
}

/// Whether a kernel multiplies integers so, into the output. Depth is counted in words of four
/// bytes by the kernels that flip signs; those on cooperative matrices do not, and are told the
/// depth in bytes.
pub open spec fn multiplies_integers(cmd: CommandView, c: IntegerCall, t: IntTuning) -> bool {
    cmd matches CommandView::Run(d) && {
        let tiles = t.tiles is Some && !c.flip_left;
        let last = d.push.len() - 1;
        &&& d.slots == seq![c.left, c.right, c.left_zero, c.right_zero, Slot::Output(0)]
        &&& told(d.push, 0, c.m)
        &&& told(d.push, 2, c.n)
        &&& d.push[last - 1] == (if c.left_signed { 0x80u32 } else { 0u32 })
        &&& d.push[last] == (if c.right_signed { 0x80u32 } else { 0u32 })
        &&& reach_all(d.grid.x, t.tile as int, c.n)
        &&& reach_all(d.grid.y, t.tile as int, c.m)
        &&& d.grid.z == 1
        &&& if tiles {
            &&& d.kernel == Kernel::IntProductTiles(t.tiles->Some_0)
            &&& d.push.len() == 5
            &&& told(d.push, 1, c.k)
        } else {
            &&& d.kernel == if t.dot {
                Kernel::IntProductDot
            } else {
                Kernel::IntProduct
            }
            &&& d.push.len() == 6
            &&& told(d.push, 1, c.k / 4)
            &&& d.push[3] == (if c.flip_left { 0x8080_8080u32 } else { 0u32 })
        }
    }
}

/// Whether a command packs the columns of a matrix of bytes into words, and flips the signs of
/// its bytes where `flip` says so.
pub open spec fn packs_columns(
    cmd: CommandView,
    from: Slot,
    to: Slot,
    rows: int,
    cols: int,
    flip: bool,
    tile: int,
) -> bool {
    cmd matches CommandView::Run(d) && {
        &&& d.kernel == Kernel::PackColumns
        &&& d.slots == seq![from, to]
        &&& d.push.len() == 3
        &&& told(d.push, 0, rows)
        &&& told(d.push, 1, cols)
        &&& d.push[2] == (if flip { 0x8080_8080u32 } else { 0u32 })
        &&& reach_all(d.grid.x, tile, cols)
        &&& reach_all(d.grid.y, tile, rows / 4)
        &&& d.grid.z == 1
    }
}

proof fn lemma_multiplies_integers(q: IntProblem, t: IntTuning, c: IntegerCall)
    requires
        t.tile > 0,
        q.m == c.m,
        q.k == c.k,
        q.n == c.n,
        q.a_byte_flip == (if c.flip_left { 0x8080_8080u32 } else { 0u32 }),
        q.a_zp_xor == (if c.left_signed { 0x80u32 } else { 0u32 }),
        q.b_zp_xor == (if c.right_signed { 0x80u32 } else { 0u32 }),
    ensures
        multiplies_integers(
            int_product_of(
                q,
                t,
                seq![c.left, c.right, c.left_zero, c.right_zero, Slot::Output(0)],
            ),
            c,
            t,
        ),
{
    lemma_reach(c.n, t.tile as int);
    lemma_reach(c.m, t.tile as int);
}

proof fn lemma_packs_columns(from: Slot, to: Slot, rows: int, cols: int, flip: bool, tile: u32)
    requires
        tile > 0,
    ensures
        packs_columns(
            pack_columns(from, to, rows, cols, flip, tile),
            from,
            to,
            rows,
            cols,
            flip,
            tile as int,
        ),
{
    lemma_reach(cols, tile as int);
    lemma_reach(rows / 4, tile as int);
}

/// **`MatMulInteger` multiplies A `[.., k]` by B `[k, n]`**, each less its zero point: A as it is,
/// B packed by columns and made unsigned, with the zero points as third and fourth input. What is
/// packed is kept for a constant B only; any other B comes from the host in each run.
pub proof fn law_matmul_integer_is_started(
    a: Seq<i64>,
    b: Seq<i64>,
    a_signed: bool,
    b_signed: bool,
    b_name: Seq<char>,
    constant: bool,
    source: Option<TensorView>,
    t: IntTuning,
    p: PlanView,
)
    requires
        matmul_integer_of(a, b, a_signed, b_signed, b_name, constant, source, t) == Some(p),
        t.tile > 0,
    ensures
        a.len() >= 2,
        b.len() == 2,
        b[0] == a.last(),
        a.last() % 4 == 0,
        p.outputs.len() == 1,
        ({
            let (k, n) = (b[0] as int, b[1] as int);
            let m = volume_of(a.drop_last())->Some_0;
            let setup = if source is Some {
                2int
            } else {
                0
            };
            &&& m >= 0 && k >= 0 && n >= 0
            &&& product(a.drop_last()) >= 0 ==> m == product(a.drop_last())
            &&& fresh_words(p.outputs[0], INT32, a.drop_last().push(n as i64), m * n)
            &&& p.commands.len() == if m * n == 0 {
                setup
            } else {
                setup + 1
            }
            &&& m * n > 0 ==> multiplies_integers(
                p.commands.last(),
                (IntegerCall {
                    left: Slot::Input(0),
                    right: Slot::Scratch(0),
                    left_zero: Slot::Input(2),
                    right_zero: Slot::Input(3),
                    m,
                    k,
                    n,
                    flip_left: a_signed,
                    left_signed: a_signed,
                    right_signed: b_signed,
                }),
                t,
            )
            &&& source is None ==> constant && p.scratch.len() == 1
            &&& source matches Some(s) ==> {
                &&& s.dtype == UINT8 || s.dtype == INT8
                &&& p.scratch.len() == 2
                &&& p.scratch[1] matches ScratchView::Temporary(size) && size >= k * n
                &&& p.commands[0] == CommandView::Upload(1, s.data)
                &&& packs_columns(
                    p.commands[1],
                    Slot::Scratch(1),
                    Slot::Scratch(0),
                    k,
                    n,
                    b_signed,
                    t.tile as int,
                )
            }
            &&& match p.scratch[0] {
                ScratchView::Kept(key, size) => constant && key.name == b_name && key.rows == k
                    && key.cols == n && size >= k * n,
                ScratchView::Temporary(size) => !constant && size >= k * n,
            }
        }),
{
    let (k, n) = (b[0] as int, b[1] as int);
    let m = volume_of(a.drop_last())->Some_0;
    assert(m * n >= 0 && k * n >= 0) by (nonlinear_arith)
        requires
            m >= 0,
            n >= 0,
            k >= 0,
    ;
    lemma_fresh(INT32, m * n);
    assert(n * (k / 4) * 4 == k * n) by (nonlinear_arith)
        requires
            k % 4 == 0,
    ;
    let q = IntProblem {
        m: m as usize,
        k: k as usize,
        n: n as usize,
        a_byte_flip: word_mask(a_signed),
        a_zp_xor: byte_mask(a_signed),
        b_zp_xor: byte_mask(b_signed),
    };
    assert(0 <= m <= usize::MAX);
    let call = IntegerCall {
        left: Slot::Input(0),
        right: Slot::Scratch(0),
        left_zero: Slot::Input(2),
        right_zero: Slot::Input(3),
        m,
        k,
        n,
        flip_left: a_signed,
        left_signed: a_signed,
        right_signed: b_signed,
    };
    lemma_multiplies_integers(q, t, call);
    lemma_packs_columns(Slot::Scratch(1), Slot::Scratch(0), k, n, b_signed, t.tile);
    if let Some(s) = source {
        crate::execution::law_device_words(s.dtype, k * n);
        assert(crate::graph::code_bits(s.dtype) == Some(8usize));
    }
}

/// **A pointwise integer convolution is the product of the weights with the pixels**: the input is
/// packed by columns, one for each pixel, and made unsigned; so are signed weights, in a copy that
/// is kept where the weights are constant. The zero point of the weights goes with the left
/// operand and that of the input with the right one.
pub proof fn law_pointwise_is_started(
    g: GeomView,
    o: IntOperands,
    w_name: Seq<char>,
    t: IntTuning,
    p: PlanView,
)
    requires
        conv_integer_of(g, o, w_name, t) == Some(p),
        is_pointwise(g),
        g.total > 0,
        t.tile > 0,
    ensures
        p.outputs.len() == 1,
        ({
            let (m, k, n) = (g.c_out, g.c_in, g.h_out * g.w_out);
            &&& fresh_words(p.outputs[0], INT32, g.out_shape, m * n)
            &&& p.commands.len() == if o.w_signed {
                3int
            } else {
                2
            }
            &&& p.scratch.len() == p.commands.len() - 1
            &&& p.scratch[0] matches ScratchView::Temporary(size) && size >= k * n
            &&& packs_columns(
                p.commands[0],
                Slot::Input(0),
                Slot::Scratch(0),
                k,
                n,
                o.x_signed,
                t.tile as int,
            )
            &&& multiplies_integers(
                p.commands.last(),
                (IntegerCall {
                    left: if o.w_signed {
                        Slot::Scratch(1)
                    } else {
                        Slot::Input(1)
                    },
                    right: Slot::Scratch(0),
                    left_zero: if o.w_zero {
                        Slot::Input(3)
                    } else {
                        Slot::Zero
                    },
                    right_zero: if o.x_zero {
                        Slot::Input(2)
                    } else {
                        Slot::Zero
                    },
                    m,
                    k,
                    n,
                    flip_left: false,
                    left_signed: o.w_signed,
                    right_signed: o.x_signed,
                }),
                t,
            )
            &&& o.w_signed ==> {
                let d = match p.commands[1] {
                    CommandView::Once(_, d) => d,
                    CommandView::Run(d) => d,
                    _ => p.commands[0]->Run_0,
                };
                &&& if o.w_constant {
                    &&& p.commands[1] is Once
                    &&& p.commands[1]->Once_0 == 1
                    &&& p.scratch[1] matches ScratchView::Kept(key, size) && size >= m * k
                        && w_name.is_prefix_of(key.name) && key.name != w_name
                } else {
                    &&& p.commands[1] is Run
                    &&& p.scratch[1] matches ScratchView::Temporary(size) && size >= m * k
                }
                &&& d.kernel == Kernel::FlipSigns
                &&& d.slots == seq![Slot::Input(1), Slot::Scratch(1)]
                &&& d.push.len() == 1
                &&& 4 * d.push[0] >= m * k || m * k > 4 * u32::MAX
                &&& m * k <= 4 * u32::MAX ==> 4 * (d.push[0] - 1) < m * k && reach_all(
                    d.grid.x,
                    256,
                    d.push[0] as int,
                )
            }
        }),
{
    let (m, k, n) = (g.c_out, g.c_in, g.h_out * g.w_out);
    assert(m * n >= 0 && k * n >= 0 && m * k >= 0) by (nonlinear_arith)
        requires
            m >= 0,
            n >= 0,
            k >= 0,
    ;
    lemma_fresh(INT32, m * n);
    let q = IntProblem {
        m: m as usize,
        k: k as usize,
        n: n as usize,
        a_byte_flip: 0,
        a_zp_xor: byte_mask(o.w_signed),
        b_zp_xor: byte_mask(o.x_signed),
    };
    let call = IntegerCall {
        left: if o.w_signed {
            Slot::Scratch(1)
        } else {
            Slot::Input(1)
        },
        right: Slot::Scratch(0),
        left_zero: if o.w_zero {
            Slot::Input(3)
        } else {
            Slot::Zero
        },
        right_zero: if o.x_zero {
            Slot::Input(2)
        } else {
            Slot::Zero
        },
        m,
        k,
        n,
        flip_left: false,
        left_signed: o.w_signed,
        right_signed: o.x_signed,
    };
    lemma_multiplies_integers(q, t, call);
    lemma_packs_columns(Slot::Input(0), Slot::Scratch(0), k, n, o.x_signed, t.tile);
    assert(n * (k / 4) * 4 == k * n) by (nonlinear_arith)
        requires
            k % 4 == 0,
    ;
    let words = crate::num::ceil_div(m * k, 4);
    lemma_reach(words, 256);
    let name = w_name + "#sign-flip"@;
    reveal_strlit("#sign-flip");
    assert(w_name =~= name.subrange(0, w_name.len() as int));
    assert(name.len() > w_name.len());
}

} // verus!
