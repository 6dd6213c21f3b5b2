//! Products of floating-point matrices.

use crate::decimal::{parse_unsigned, unsigned_of};
use crate::error::{backend_error, Result};
use crate::execution::device_bytes;
use crate::floats::ONE;
use crate::graph::NodeIr;
use crate::host_ops::{FLOAT, UINT8};
use crate::interp::conv::{bias_slot, lemma_too_many, size};
use crate::interp::window::section;
use crate::num::{ceil_div, flag_of, groups, size_word, volume, volume_of, w32, word};
use crate::plan::{
    assembled, buffer_bytes, one_output, output, output_of, planned, run, run_of, simple, Command,
    Kernel, NbitsKind, Plan, PlanView, Produced, ProducedView, Scratch, ScratchView, Slot,
};
use crate::shaders::{broadcast_words, broadcasts, push_broadcast, MAX_RANK};
use crate::shape::{broadcast, joins, joint_shape, Broadcast};
use crate::text;
use vstd::prelude::*;

verus! {

// --- MatMul -----------------------------------------------------------------------------

/// How a matrix product is laid out on the device.
#[derive(Debug, Clone, Copy, PartialEq, Eq, Structural)]
pub struct MatMulTuning {
    /// Into how many slices the inner dimension of a matrix-vector product is cut, where the
    /// problem is one.
    pub vector: Option<u32>,
    /// Columns that a work group of the matrix-vector product covers.
    pub vector_cols: u32,
    /// Whether the large tile pays.
    pub blocked: bool,
    pub tile: u32,
    pub small_tile: u32,
}

/// The sizes of a product of stacks of matrices.
pub struct MatMulSizes {
    pub m: usize,
    pub k: usize,
    pub n: usize,
    /// The number of matrices.
    pub batch: usize,
    /// The number of output elements; an empty stack counts as one matrix.
    pub total: usize,
}

/// The leading dimensions, without the two of the matrices.
pub open spec fn stack(s: Seq<i64>) -> Seq<i64> {
    s.take(s.len() - 2)
}

/// The largest number of matrices in a stack.
pub const MAX_BATCH: usize = 65535;

/// Whether the shapes multiply: matching inner dimensions, stacks that broadcast to at most
/// [`MAX_RANK`] dimensions and [`MAX_BATCH`] matrices, and a countable result.
pub open spec fn matmul_sizes_of(a: Seq<i64>, b: Seq<i64>) -> Option<(int, int, int, int, int)> {
    if a.len() < 2 || b.len() < 2 {
        None
    } else {
        let m = a[a.len() - 2] as int;
        let k = a[a.len() - 1] as int;
        let n = b[b.len() - 1] as int;
        let out = joint_shape(stack(a), stack(b));
        match volume_of(out) {
            None => None,
            Some(batch) => {
                let total = (if batch == 0 {
                    1
                } else {
                    batch
                }) * m * n;
                if 0 <= m <= usize::MAX && 0 <= k <= usize::MAX && 0 <= n <= usize::MAX && b[b.len()
                    - 2] == k && joins(stack(a), stack(b)) && out.len() <= MAX_RANK && batch
                    <= MAX_BATCH && (if batch == 0 {
                    1
                } else {
                    batch
                }) * m <= usize::MAX && total <= usize::MAX {
                    Some((m, k, n, batch, total))
                } else {
                    None
                }
            },
        }
    }
}

/// How the stacks broadcast, and the sizes of the product.
pub fn matmul_sizes(a: &[i64], b: &[i64]) -> (r: Option<(Broadcast, MatMulSizes)>)
    ensures
        match (r, matmul_sizes_of(a@, b@)) {
            (Some((bc, s)), Some((m, k, n, batch, total))) => {
                &&& broadcasts(bc, stack(a@), stack(b@))
                &&& s.m == m && s.k == k && s.n == n && s.batch == batch && s.total == total
            },
            (None, None) => true,
            _ => false,
        },
{
    let (ra, rb): (usize, usize) = (a.len(), b.len());
    if ra < 2 || rb < 2 {
        return None;
    }
    let (m, k): (usize, usize) = match (size(a[ra - 2]), size(a[ra - 1])) {
        (Some(m), Some(k)) => (m, k),
        _ => {
            return None;
        },
    };
    let (kb, n): (usize, usize) = match (size(b[rb - 2]), size(b[rb - 1])) {
        (Some(k), Some(n)) => (k, n),
        _ => {
            return None;
        },
    };
    if k != kb {
        return None;
    }
    let sa = section(a, 0, ra - 2);
    let sb = section(b, 0, rb - 2);
    assert(sa@ =~= stack(a@));
    assert(sb@ =~= stack(b@));
    let bc: Broadcast = match broadcast(sa.as_slice(), sb.as_slice()) {
        Ok(bc) => bc,
        Err(_) => {
            return None;
        },
    };
    if bc.out_shape.len() > MAX_RANK {
        return None;
    }
    let batch: usize = match volume(bc.out_shape.as_slice()) {
        Some(v) => v,
        None => {
            return None;
        },
    };
    if batch > MAX_BATCH {
        return None;
    }
    let stacks: usize = if batch == 0 {
        1
    } else {
        batch
    };
    match stacks.checked_mul(m) {
        None => None,
        Some(rows) => match rows.checked_mul(n) {
            None => None,
            Some(total) => Some((bc, MatMulSizes { m, k, n, batch, total })),
        },
    }
}

/// The plan of a matrix product. A matrix-vector product may be cut along its inner
/// dimension; a second pass then adds up the slices.
pub open spec fn matmul_of(a: Seq<i64>, b: Seq<i64>, t: MatMulTuning) -> Option<PlanView> {
    match matmul_sizes_of(a, b) {
        None => None,
        Some((m, k, n, batch, total)) => {
            let shape = joint_shape(stack(a), stack(b)).push(m as i64).push(n as i64);
            match output_of(FLOAT, shape, total) {
                None => None,
                Some(out) => if m == 0 || n == 0 {
                    Some(one_output(out, Seq::empty()))
                } else if t.vector is Some {
                    vector_plan_of(out, k, n, t.vector->Some_0, t.vector_cols)
                } else {
                    let tile = if t.blocked {
                        t.tile
                    } else {
                        t.small_tile
                    } as int;
                    Some(
                        one_output(
                            out,
                            seq![
                                run_of(
                                    if t.blocked {
                                        Kernel::MatMul
                                    } else {
                                        Kernel::MatMulSmall
                                    },
                                    seq![Slot::Input(0), Slot::Input(1), Slot::Output(0)],
                                    seq![
                                        w32(m),
                                        w32(k),
                                        w32(n),
                                        w32(joint_shape(stack(a), stack(b)).len() as int),
                                    ] + broadcast_words(stack(a), stack(b)),
                                    ceil_div(w32(n) as int, tile),
                                    ceil_div(w32(m) as int, tile),
                                    if batch == 0 {
                                        1
                                    } else {
                                        batch
                                    },
                                ),
                            ],
                        ),
                    )
                },
            }
        },
    }
}

/// The plan of a matrix-vector product of depth `k` and width `n`, in `split` slices.
pub open spec fn vector_plan_of(out: ProducedView, k: int, n: int, split: u32, cols: u32) -> Option<
    PlanView,
> {
    let push = seq![w32(k), w32(n), split, 0u32];
    let x = ceil_div(w32(n) as int, cols as int);
    if split <= 1 {
        Some(
            one_output(
                out,
                seq![
                    run_of(
                        Kernel::MatVec,
                        seq![Slot::Input(0), Slot::Input(1), Slot::Output(0)],
                        push,
                        x,
                        split as int,
                        1,
                    ),
                ],
            ),
        )
    } else {
        match device_bytes(FLOAT, split * n) {
            Err(_) => None,
            Ok(bytes) => Some(
                PlanView {
                    outputs: seq![out],
                    scratch: seq![ScratchView::Temporary(bytes)],
                    commands: seq![
                        run_of(
                            Kernel::MatVec,
                            seq![Slot::Input(0), Slot::Input(1), Slot::Scratch(0)],
                            push,
                            x,
                            split as int,
                            1,
                        ),
                        run_of(
                            Kernel::MatVecReduce,
                            seq![Slot::Scratch(0), Slot::Output(0)],
                            push,
                            ceil_div(w32(n) as int, 256),
                            1,
                            1,
                        ),
                    ],
                },
            ),
        }
    }
}

fn vector_plan(out: Produced, k: usize, n: usize, split: u32, cols: u32) -> (r: Result<Plan>)
    requires
        cols > 0,
    ensures
        planned(r, vector_plan_of(out@, k as int, n as int, split, cols)),
{
    let ghost v = out@;
    let push: Vec<u32> = vec![size_word(k), size_word(n), split, 0];
    assert(push@ =~= seq![w32(k as int), w32(n as int), split, 0u32]);
    let x: u32 = groups(size_word(n), cols);
    if split <= 1 {
        let slots: Vec<Slot> = vec![Slot::Input(0), Slot::Input(1), Slot::Output(0)];
        assert(slots@ =~= seq![Slot::Input(0), Slot::Input(1), Slot::Output(0)]);
        return Ok(simple(out, Some(run(Kernel::MatVec, slots, push, x, split, 1))));
    }
    let count: usize = match (split as usize).checked_mul(n) {
        Some(c) => c,
        None => {
            proof {
                lemma_too_many(split * n);
            }
            return Err(backend_error("the slices are too large"));
        },
    };
    let bytes: u64 = match buffer_bytes(FLOAT, count) {
        Ok(b) => b,
        Err(e) => {
            return Err(e);
        },
    };
    let again: Vec<u32> = push.clone();
    let first: Vec<Slot> = vec![Slot::Input(0), Slot::Input(1), Slot::Scratch(0)];
    assert(first@ =~= seq![Slot::Input(0), Slot::Input(1), Slot::Scratch(0)]);
    let second: Vec<Slot> = vec![Slot::Scratch(0), Slot::Output(0)];
    assert(second@ =~= seq![Slot::Scratch(0), Slot::Output(0)]);
    let commands: Vec<Command> = vec![
        run(Kernel::MatVec, first, push, x, split, 1),
        run(Kernel::MatVecReduce, second, again, groups(size_word(n), 256), 1, 1),
    ];
    let plan = assembled(vec![out], vec![Scratch::Temporary(bytes)], commands);
    proof {
        let want = vector_plan_of(v, k as int, n as int, split, cols)->Some_0;
        assert(plan@.outputs =~= want.outputs);
        assert(plan@.scratch =~= want.scratch);
        assert(plan@.commands =~= want.commands);
    }
    Ok(plan)
}

/// Plans a matrix product.
pub fn matmul_fp32(a_shape: &[i64], b_shape: &[i64], t: MatMulTuning) -> (r: Result<Plan>)
    requires
        t.vector_cols > 0,
        t.tile > 0,
        t.small_tile > 0,
    ensures
        planned(r, matmul_of(a_shape@, b_shape@, t)),
{
    let (bc, s): (Broadcast, MatMulSizes) = match matmul_sizes(a_shape, b_shape) {
        Some(p) => p,
        None => {
            return Err(backend_error("the matrices do not suit each other"));
        },
    };
    let ghost (sa, sb) = (stack(a_shape@), stack(b_shape@));
    let rank: usize = bc.out_shape.len();
    let mut push: Vec<u32> = vec![
        size_word(s.m),
        size_word(s.k),
        size_word(s.n),
        size_word(rank),
    ];
    assert(push@ =~= seq![
        w32(s.m as int),
        w32(s.k as int),
        w32(s.n as int),
        w32(joint_shape(sa, sb).len() as int),
    ]);
    push_broadcast(&mut push, &bc, Ghost(sa), Ghost(sb));
    let mut shape: Vec<i64> = bc.out_shape;
    shape.push(s.m as i64);
    shape.push(s.n as i64);
    let out: Produced = match output(FLOAT, shape, s.total) {
        Ok(p) => p,
        Err(e) => {
            return Err(e);
        },
    };
    if s.m == 0 || s.n == 0 {
        return Ok(simple(out, None));
    }
    match t.vector {
        Some(split) => {
            return vector_plan(out, s.k, s.n, split, t.vector_cols);
        },
        None => {},
    }
    let (kernel, tile): (Kernel, u32) = if t.blocked {
        (Kernel::MatMul, t.tile)
    } else {
        (Kernel::MatMulSmall, t.small_tile)
    };
    let slots: Vec<Slot> = vec![Slot::Input(0), Slot::Input(1), Slot::Output(0)];
    assert(slots@ =~= seq![Slot::Input(0), Slot::Input(1), Slot::Output(0)]);
    let z: u32 = if s.batch == 0 {
        1
    } else {
        s.batch as u32
    };
    Ok(
        simple(
            out,
            Some(
                run(
                    kernel,
                    slots,
                    push,
                    groups(size_word(s.n), tile),
                    groups(size_word(s.m), tile),
                    z,
                ),
            ),
        ),
    )
}

// --- Gemm -------------------------------------------------------------------------------

/// The rows and columns of the matrix that is added: none, a number, a row or a matrix.
pub open spec fn addend_of(c: Option<Seq<i64>>) -> Option<(int, int)> {
    match c {
        None => Some((0, 0)),
        Some(s) => if s.len() == 0 {
            Some((1, 1))
        } else if s.len() == 1 {
            Some((1, s[0] as int))
        } else if s.len() == 2 {
            Some((s[0] as int, s[1] as int))
        } else {
            None
        },
    }
}

pub open spec fn at_least_one(x: int) -> int {
    if x < 1 {
        1
    } else {
        x
    }
}

/// `m`, `k` and `n` of `alpha A' B' + beta C`, where the attributes say whether A and B are
/// transposed.
pub open spec fn gemm_sizes_of(node: NodeIr, a: Seq<i64>, b: Seq<i64>) -> Option<(int, int, int)> {
    if a.len() != 2 || b.len() != 2 {
        None
    } else {
        let ta = node.int_attr("transA"@, 0) != 0;
        let tb = node.int_attr("transB"@, 0) != 0;
        let (m, k) = if ta {
            (a[1], a[0])
        } else {
            (a[0], a[1])
        };
        let (kb, n) = if tb {
            (b[1], b[0])
        } else {
            (b[0], b[1])
        };
        if k == kb {
            Some((m as int, k as int, n as int))
        } else {
            None
        }
    }
}

pub open spec fn gemm_flags(node: NodeIr, has_c: bool) -> u32 {
    (flag_of(node.int_attr("transA"@, 0) != 0) + 2 * flag_of(node.int_attr("transB"@, 0) != 0) + 4
        * flag_of(has_c)) as u32
}

/// The plan of `Gemm`.
pub open spec fn gemm_of(
    node: NodeIr,
    a: Seq<i64>,
    b: Seq<i64>,
    c: Option<Seq<i64>>,
    tile: u32,
) -> Option<PlanView> {
    match (gemm_sizes_of(node, a, b), addend_of(c)) {
        (Some((m, k, n)), Some((rows, cols))) => match volume_of(seq![m as i64, n as i64]) {
            None => None,
            Some(total) => match output_of(FLOAT, seq![m as i64, n as i64], total) {
                None => None,
                Some(out) => Some(
                    one_output(
                        out,
                        if total == 0 {
                            Seq::empty()
                        } else {
                            seq![
                                run_of(
                                    Kernel::Gemm,
                                    seq![
                                        Slot::Input(0),
                                        Slot::Input(1),
                                        bias_slot(c is Some),
                                        Slot::Output(0),
                                    ],
                                    seq![
                                        w32(m),
                                        w32(k),
                                        w32(n),
                                        gemm_flags(node, c is Some),
                                        node.float_attr("alpha"@, ONE),
                                        node.float_attr("beta"@, ONE),
                                        w32(at_least_one(rows)),
                                        w32(at_least_one(cols)),
                                    ],
                                    ceil_div(w32(n) as int, tile as int),
                                    ceil_div(w32(m) as int, tile as int),
                                    1,
                                ),
                            ]
                        },
                    ),
                ),
            },
        },
        _ => None,
    }
}

pub open spec fn optional_shape(c: Option<&[i64]>) -> Option<Seq<i64>> {
    match c {
        Some(s) => Some(s@),
        None => None,
    }
}

/// Plans `Gemm`: `alpha A' B' + beta C` of matrices.
pub fn gemm(
    node: &NodeIr,
    a_shape: &[i64],
    b_shape: &[i64],
    c_shape: Option<&[i64]>,
    tile: u32,
) -> (r: Result<Plan>)
    requires
        tile > 0,
    ensures
        planned(r, gemm_of(*node, a_shape@, b_shape@, optional_shape(c_shape), tile)),
{
    if a_shape.len() != 2 || b_shape.len() != 2 {
        return Err(backend_error("the operands are not matrices"));
    }
    let ta: bool = node.attr_i64("transA", 0) != 0;
    let tb: bool = node.attr_i64("transB", 0) != 0;
    let (m, k): (i64, i64) = if ta {
        (a_shape[1], a_shape[0])
    } else {
        (a_shape[0], a_shape[1])
    };
    let (kb, n): (i64, i64) = if tb {
        (b_shape[1], b_shape[0])
    } else {
        (b_shape[0], b_shape[1])
    };
    if k != kb {
        return Err(backend_error("the inner dimensions differ"));
    }
    let has_c: bool = c_shape.is_some();
    let (rows, cols): (i64, i64) = match c_shape {
        None => (0, 0),
        Some(s) => {
            if s.len() == 0 {
                (1, 1)
            } else if s.len() == 1 {
                (1, s[0])
            } else if s.len() == 2 {
                (s[0], s[1])
            } else {
                return Err(backend_error("the added tensor is not a matrix"));
            }
        },
    };
    let shape: Vec<i64> = vec![m, n];
    assert(shape@ =~= seq![m, n]);
    let total: usize = match volume(shape.as_slice()) {
        Some(t) => t,
        None => {
            return Err(backend_error("the output is too large"));
        },
    };
    let out: Produced = match output(FLOAT, shape, total) {
        Ok(p) => p,
        Err(e) => {
            return Err(e);
        },
    };
    if total == 0 {
        return Ok(simple(out, None));
    }
    let flags: u32 = (if ta {
        1u32
    } else {
        0u32
    }) + (if tb {
        2u32
    } else {
        0u32
    }) + (if has_c {
        4u32
    } else {
        0u32
    });
    let push: Vec<u32> = vec![
        word(m),
        word(k),
        word(n),
        flags,
        node.attr_f32("alpha", ONE),
        node.attr_f32("beta", ONE),
        word(if rows < 1 { 1 } else { rows }),
        word(if cols < 1 { 1 } else { cols }),
    ];
    assert(push@ =~= seq![
        w32(m as int),
        w32(k as int),
        w32(n as int),
        gemm_flags(*node, has_c),
        node.float_attr("alpha"@, ONE),
        node.float_attr("beta"@, ONE),
        w32(at_least_one(rows as int)),
        w32(at_least_one(cols as int)),
    ]);
    let bias: Slot = if has_c {
        Slot::Input(2)
    } else {
        Slot::Zero
    };
    let slots: Vec<Slot> = vec![Slot::Input(0), Slot::Input(1), bias, Slot::Output(0)];
    assert(slots@ =~= seq![Slot::Input(0), Slot::Input(1), bias, Slot::Output(0)]);
    Ok(
        simple(
            out,
            Some(run(Kernel::Gemm, slots, push, groups(word(n), tile), groups(word(m), tile), 1)),
        ),
    )
}

// --- MatMulNBits ------------------------------------------------------------------------

/// How a product with four-bit weights is laid out on the device.
#[derive(Debug, Clone, Copy, PartialEq, Eq, Structural)]
pub struct NbitsTuning {
    /// Whether the plain kernel is asked for.
    pub scalar: bool,
    /// The largest number of rows for which the inner dimension is split; zero for any.
    pub split_max_rows: u32,
    /// The wave width that is asked for.
    pub wave: Option<u32>,
    /// The wave width of the device.
    pub default_wave: u32,
    /// Invocations in a work group of the plain kernel.
    pub group: u32,
}

/// The largest number of rows for which the inner dimension is split, given the value of
/// `LFM25_NBITS_SPLITK_MAX_M`: any number where it holds none.
pub open spec fn split_rows(value: Option<&str>) -> u32 {
    match value {
        Some(v) => match unsigned_of(v@, u32::MAX as nat) {
            Some(n) => n as u32,
            None => 0,
        },
        None => 0,
    }
}

impl NbitsTuning {
    /// The layout on a device, given the values of `LFM25_NBITS_KERNEL` and
    /// `LFM25_NBITS_SPLITK_MAX_M`.
    pub fn chosen(
        kernel: Option<&str>,
        rows: Option<&str>,
        wave: Option<u32>,
        default_wave: u32,
        group: u32,
    ) -> (r: NbitsTuning)
        ensures
            r == (NbitsTuning {
                scalar: kernel matches Some(k) && k@ == "scalar"@,
                split_max_rows: split_rows(rows),
                wave,
                default_wave,
                group,
            }),
    {
        let scalar: bool = match kernel {
            Some(k) => text::same(k, "scalar"),
            None => false,
        };
        let split_max_rows: u32 = match rows {
            Some(v) => match parse_unsigned(v, u32::MAX as u64) {
                Some(n) => n as u32,
                None => 0,
            },
            None => 0,
        };
        NbitsTuning { scalar, split_max_rows, wave, default_wave, group }
    }
}

/// What is known of a tensor on the device.
#[derive(Debug, Clone, Copy, PartialEq, Eq, Structural)]
pub struct Extent {
    pub dtype: i32,
    pub elem_count: usize,
}

/// `m`, `k`, `n` of the product with weights of four bits in blocks of 32.
pub open spec fn nbits_sizes_of(
    node: NodeIr,
    a: Seq<i64>,
    a_count: usize,
    w: Extent,
    scales: Extent,
) -> Option<(int, int, int)> {
    match (node.opt_int_attr("K"@), node.opt_int_attr("N"@)) {
        (Some(k), Some(n)) => if 0 < k <= usize::MAX && 0 <= n <= usize::MAX
            && node.opt_int_attr("bits"@) == Some(4i64) && node.opt_int_attr("block_size"@) == Some(
            32i64,
        ) && a.len() > 0 && a.last() == k && w.dtype == UINT8 && scales.dtype == FLOAT && n * k
            <= usize::MAX && w.elem_count == n * k / 2 && scales.elem_count == n * k / 32 && (a_count
            as int / k as int) * n <= usize::MAX {
            Some((a_count as int / k as int, k as int, n as int))
        } else {
            None
        },
        _ => None,
    }
}

/// The kernel for the product: the plain one where it is asked for, the one that splits the
/// inner dimension where that is made of whole blocks and the rows are few enough.
pub open spec fn nbits_kind(t: NbitsTuning, m: int, k: int) -> NbitsKind {
    if t.scalar {
        NbitsKind::Scalar
    } else if (t.split_max_rows == 0 || w32(m) <= t.split_max_rows) && k % 32 == 0 {
        NbitsKind::SplitK
    } else {
        NbitsKind::Tiled
    }
}

/// The wave width that makes a pipeline different from the device's own.
pub open spec fn forced_wave(t: NbitsTuning) -> Option<u32> {
    match t.wave {
        Some(w) if w != t.default_wave => Some(w),
        _ => None,
    }
}

pub open spec fn nbits_grid(t: NbitsTuning, m: int, k: int, n: int) -> (int, int, int) {
    match nbits_kind(t, m, k) {
        NbitsKind::Scalar => (ceil_div(w32(m * n) as int, t.group as int), 1, 1),
        NbitsKind::SplitK => (w32(m) as int, 1, ceil_div(w32(n) as int, 32)),
        NbitsKind::Tiled => (w32(m * n) as int, 1, 1),
    }
}

/// The plan of the product with four-bit weights.
pub open spec fn nbits_of(
    node: NodeIr,
    a: Seq<i64>,
    a_count: usize,
    w: Extent,
    scales: Extent,
    t: NbitsTuning,
) -> Option<PlanView> {
    match nbits_sizes_of(node, a, a_count, w, scales) {
        None => None,
        Some((m, k, n)) => match output_of(FLOAT, a.drop_last().push(n as i64), m * n) {
            None => None,
            Some(out) => Some(
                one_output(
                    out,
                    if m * n == 0 {
                        Seq::empty()
                    } else {
                        let grid = nbits_grid(t, m, k, n);
                        seq![
                            run_of(
                                Kernel::MatMulNbits(nbits_kind(t, m, k), forced_wave(t)),
                                seq![
                                    Slot::Input(0),
                                    Slot::Input(1),
                                    Slot::Input(2),
                                    Slot::Output(0),
                                ],
                                seq![w32(m), w32(k), w32(n)],
                                grid.0,
                                grid.1,
                                grid.2,
                            ),
                        ]
                    },
                ),
            ),
        },
    }
}

fn nbits_sizes(node: &NodeIr, a_shape: &[i64], a_count: usize, w: Extent, scales: Extent) -> (r: Option<
    (usize, usize, usize),
>)
    ensures
        match (r, nbits_sizes_of(*node, a_shape@, a_count, w, scales)) {
            (Some((m, k, n)), Some((ms, ks, ns))) => m == ms && k == ks && n == ns && m * n
                <= usize::MAX,
            (None, None) => true,
            _ => false,
        },
{
    let (kv, nv): (i64, i64) = match (node.attr_opt_i64("K"), node.attr_opt_i64("N")) {
        (Some(k), Some(n)) => (k, n),
        _ => {
            return None;
        },
    };
    let (k, n): (usize, usize) = match (size(kv), size(nv)) {
        (Some(k), Some(n)) => (k, n),
        _ => {
            return None;
        },
    };
    let four: bool = match node.attr_opt_i64("bits") {
        Some(b) => b == 4,
        None => false,
    };
    let blocks: bool = match node.attr_opt_i64("block_size") {
        Some(b) => b == 32,
        None => false,
    };
    let rank: usize = a_shape.len();
    if !four || !blocks || k == 0 || rank == 0 || a_shape[rank - 1] != kv || w.dtype != UINT8
        || scales.dtype != FLOAT {
        return None;
    }
    let all: usize = match n.checked_mul(k) {
        Some(v) => v,
        None => {
            return None;
        },
    };
    if w.elem_count != all / 2 || scales.elem_count != all / 32 {
        return None;
    }
    let m: usize = a_count / k;
    match m.checked_mul(n) {
        Some(_) => Some((m, k, n)),
        None => None,
    }
}

/// Plans the product with four-bit weights.
pub fn matmul_nbits_q4(
    node: &NodeIr,
    a_shape: &[i64],
    a_count: usize,
    w: Extent,
    scales: Extent,
    t: NbitsTuning,
) -> (r: Result<Plan>)
    requires
        t.group > 0,
    ensures
        planned(r, nbits_of(*node, a_shape@, a_count, w, scales, t)),
{
    let (m, k, n): (usize, usize, usize) = match nbits_sizes(node, a_shape, a_count, w, scales) {
        Some(s) => s,
        None => {
            return Err(backend_error("the packed weights do not suit the activations"));
        },
    };
    let mut shape: Vec<i64> = section(a_shape, 0, a_shape.len() - 1);
    shape.push(n as i64);
    assert(shape@ =~= a_shape@.drop_last().push(n as i64));
    let total: usize = m * n;
    let out: Produced = match output(FLOAT, shape, total) {
        Ok(p) => p,
        Err(e) => {
            return Err(e);
        },
    };
    if total == 0 {
        return Ok(simple(out, None));
    }
    let split: bool = (t.split_max_rows == 0 || size_word(m) <= t.split_max_rows) && k % 32 == 0;
    let kind: NbitsKind = if t.scalar {
        NbitsKind::Scalar
    } else if split {
        NbitsKind::SplitK
    } else {
        NbitsKind::Tiled
    };
    let wave: Option<u32> = match t.wave {
        Some(w) => if w != t.default_wave {
            Some(w)
        } else {
            None
        },
        None => None,
    };
    let (x, y, z): (u32, u32, u32) = match kind {
        NbitsKind::Scalar => (groups(size_word(total), t.group), 1, 1),
        NbitsKind::SplitK => (size_word(m), 1, groups(size_word(n), 32)),
        NbitsKind::Tiled => (size_word(total), 1, 1),
    };
    let push: Vec<u32> = vec![size_word(m), size_word(k), size_word(n)];
    assert(push@ =~= seq![w32(m as int), w32(k as int), w32(n as int)]);
    let slots: Vec<Slot> = vec![Slot::Input(0), Slot::Input(1), Slot::Input(2), Slot::Output(0)];
    assert(slots@ =~= seq![Slot::Input(0), Slot::Input(1), Slot::Input(2), Slot::Output(0)]);
    Ok(simple(out, Some(run(Kernel::MatMulNbits(kind, wave), slots, push, x, y, z))))
}

} // verus!
