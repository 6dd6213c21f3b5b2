//! Products of integer matrices, and the convolutions that are such products.

use crate::error::{backend_error, Kind, Result};
use crate::execution::device_bytes;
use crate::graph::TensorView;
use crate::host_ops::{HostTensor, INT32, INT8, UINT8};
use crate::interp::conv::size;
use crate::interp::window::{section, ConvGeom, GeomView};
use crate::num::{ceil_div, flag, flag_of, groups, in_range, size_word, volume, volume_of, w32};
use crate::plan::{
    assembled, buffer_bytes, dispatch_of, once, one_output, output, output_of, planned, run, run_of, simple,
    Command, CommandView, Kernel, PackedKey, PackedKeyView, Plan, PlanView, Produced, Scratch,
    ScratchView, Slot,
};
use crate::text;
use vstd::prelude::*;

verus! {

/// The sign bits of the four bytes of a word.
pub const SIGN_FLIP_WORD: u32 = 0x8080_8080;

/// The sign bit of a byte.
pub const SIGN_FLIP_BYTE: u32 = 0x80;

/// The number that a byte stands for.
pub open spec fn byte_value(b: u8, signed: bool) -> int {
    if signed && b >= 128 {
        b - 256
    } else {
        b as int
    }
}

/// **Flipping signs keeps differences**: a signed byte and its zero point, both with their sign
/// bit flipped, differ as unsigned bytes by what they differed before. So a kernel that sees
/// unsigned bytes alone computes the products of signed ones.
pub proof fn law_flip_keeps_difference(b: u8, zero: u8)
    ensures
        byte_value(b, true) - byte_value(zero, true) == byte_value(
            b ^ (SIGN_FLIP_BYTE as u8),
            false,
        ) - byte_value(zero ^ (SIGN_FLIP_BYTE as u8), false),
{
    assert(SIGN_FLIP_BYTE as u8 == 0x80u8);
    assert(b ^ 0x80u8 == if b < 128 {
        (b + 128) as u8
    } else {
        (b - 128) as u8
    }) by (bit_vector);
    assert(zero ^ 0x80u8 == if zero < 128 {
        (zero + 128) as u8
    } else {
        (zero - 128) as u8
    }) by (bit_vector);
}

/// How an integer product is laid out on the device.
#[derive(Debug, Clone, Copy, PartialEq, Eq, Structural)]
pub struct IntTuning {
    /// The cooperative-matrix variant that covers the problem, if one does.
    pub tiles: Option<u32>,
    /// Whether the device has the dot-product instruction.
    pub dot: bool,
    pub tile: u32,
}

/// `A [m, k]` times `B [k, n]`, with `k` in bytes.
///
/// `a_byte_flip` is not zero where the bytes of A are signed in memory. The `zp_xor` masks
/// belong to every operand that was signed, since its zero point still is.
#[derive(Debug, Clone, Copy, PartialEq, Eq, Structural)]
pub struct IntProblem {
    pub m: usize,
    pub k: usize,
    pub n: usize,
    pub a_byte_flip: u32,
    pub a_zp_xor: u32,
    pub b_zp_xor: u32,
}

/// The integer product on the best kernel for it: cooperative matrices, which cannot flip
/// signs, then the dot-product instruction, then the one that runs everywhere.
pub open spec fn int_product_of(p: IntProblem, t: IntTuning, slots: Seq<Slot>) -> CommandView {
    let x = ceil_div(w32(p.n as int) as int, t.tile as int);
    let y = ceil_div(w32(p.m as int) as int, t.tile as int);
    if t.tiles is Some && p.a_byte_flip == 0 {
        run_of(
            Kernel::IntProductTiles(t.tiles->Some_0),
            slots,
            seq![w32(p.m as int), w32(p.k as int), w32(p.n as int), p.a_zp_xor, p.b_zp_xor],
            x,
            y,
            1,
        )
    } else {
        run_of(
            if t.dot {
                Kernel::IntProductDot
            } else {
                Kernel::IntProduct
            },
            slots,
            seq![
                w32(p.m as int),
                w32(p.k as int / 4),
                w32(p.n as int),
                p.a_byte_flip,
                p.a_zp_xor,
                p.b_zp_xor,
            ],
            x,
            y,
            1,
        )
    }
}

/// Dispatches the integer product on the best kernel for it.
pub fn mmi_dispatch(p: IntProblem, t: IntTuning, slots: Vec<Slot>) -> (r: Command)
    requires
        t.tile > 0,
    ensures
        r@ == int_product_of(p, t, slots@),
{
    let x: u32 = groups(size_word(p.n), t.tile);
    let y: u32 = groups(size_word(p.m), t.tile);
    if p.a_byte_flip == 0 {
        match t.tiles {
            Some(v) => {
                let push: Vec<u32> = vec![
                    size_word(p.m),
                    size_word(p.k),
                    size_word(p.n),
                    p.a_zp_xor,
                    p.b_zp_xor,
                ];
                assert(push@ =~= seq![
                    w32(p.m as int),
                    w32(p.k as int),
                    w32(p.n as int),
                    p.a_zp_xor,
                    p.b_zp_xor,
                ]);
                return run(Kernel::IntProductTiles(v), slots, push, x, y, 1);
            },
            None => {},
        }
    }
    let push: Vec<u32> = vec![
        size_word(p.m),
        size_word(p.k / 4),
        size_word(p.n),
        p.a_byte_flip,
        p.a_zp_xor,
        p.b_zp_xor,
    ];
    assert(push@ =~= seq![
        w32(p.m as int),
        w32(p.k as int / 4),
        w32(p.n as int),
        p.a_byte_flip,
        p.a_zp_xor,
        p.b_zp_xor,
    ]);
    let kernel: Kernel = if t.dot {
        Kernel::IntProductDot
    } else {
        Kernel::IntProduct
    };
    run(kernel, slots, push, x, y, 1)
}

pub open spec fn byte_mask(signed: bool) -> u32 {
    if signed {
        SIGN_FLIP_BYTE
    } else {
        0
    }
}

pub open spec fn word_mask(signed: bool) -> u32 {
    if signed {
        SIGN_FLIP_WORD
    } else {
        0
    }
}

fn byte_mask_of(signed: bool) -> (r: u32)
    ensures
        r == byte_mask(signed),
{
    if signed {
        SIGN_FLIP_BYTE
    } else {
        0
    }
}

fn word_mask_of(signed: bool) -> (r: u32)
    ensures
        r == word_mask(signed),
{
    if signed {
        SIGN_FLIP_WORD
    } else {
        0
    }
}

/// At least one word.
pub open spec fn word_bytes(n: int) -> int {
    if n < 4 {
        4
    } else {
        n
    }
}

/// Packs the columns of a matrix of `rows` times `cols` bytes into words; `flip` turns signed
/// bytes into unsigned ones.
pub open spec fn pack_columns(
    from: Slot,
    to: Slot,
    rows: int,
    cols: int,
    flip: bool,
    tile: u32,
) -> CommandView {
    run_of(
        Kernel::PackColumns,
        seq![from, to],
        seq![w32(rows), w32(cols), word_mask(flip)],
        ceil_div(w32(cols) as int, tile as int),
        ceil_div(w32(rows / 4) as int, tile as int),
        1,
    )
}

fn pack(from: Slot, to: Slot, rows: usize, cols: usize, flip: bool, tile: u32) -> (r: Command)
    requires
        tile > 0,
    ensures
        r@ == pack_columns(from, to, rows as int, cols as int, flip, tile),
{
    let slots: Vec<Slot> = vec![from, to];
    let push: Vec<u32> = vec![size_word(rows), size_word(cols), word_mask_of(flip)];
    assert(slots@ =~= seq![from, to]);
    assert(push@ =~= seq![w32(rows as int), w32(cols as int), word_mask(flip)]);
    run(
        Kernel::PackColumns,
        slots,
        push,
        groups(size_word(cols), tile),
        groups(size_word(rows / 4), tile),
        1,
    )
}

// --- MatMulInteger ----------------------------------------------------------------------

/// The sizes `m`, `k`, `n` of the product, where the shapes suit each other and `k` is a whole
/// number of words.
pub open spec fn int_sizes_of(a: Seq<i64>, b: Seq<i64>) -> Option<(int, int, int)> {
    if a.len() < 2 || b.len() != 2 {
        None
    } else {
        let k = a.last();
        match volume_of(a.drop_last()) {
            Some(m) => if 0 <= k <= usize::MAX && k % 4 == 0 && b[0] == k && 0 <= b[1]
                <= usize::MAX && k * b[1] <= usize::MAX && m * b[1] <= usize::MAX {
                Some((m, k as int, b[1] as int))
            } else {
                None
            },
            None => None,
        }
    }
}

pub fn int_sizes(a: &[i64], b: &[i64]) -> (r: Option<(usize, usize, usize)>)
    ensures
        match (r, int_sizes_of(a@, b@)) {
            (Some((m, k, n)), Some((ms, ks, ns))) => m == ms && k == ks && n == ns,
            (None, None) => true,
            _ => false,
        },
{
    let rank: usize = a.len();
    if rank < 2 || b.len() != 2 {
        return None;
    }
    let rows = section(a, 0, rank - 1);
    assert(rows@ =~= a@.drop_last());
    let m: usize = match volume(rows.as_slice()) {
        Some(m) => m,
        None => {
            return None;
        },
    };
    let (k, bk, n): (usize, usize, usize) = match (size(a[rank - 1]), size(b[0]), size(b[1])) {
        (Some(k), Some(bk), Some(n)) => (k, bk, n),
        _ => {
            return None;
        },
    };
    if k % 4 != 0 || bk != k || k.checked_mul(n).is_none() || m.checked_mul(n).is_none() {
        return None;
    }
    Some((m, k, n))
}

/// The buffers and commands that bring the packed columns of B into `Scratch(0)`. A constant B is
/// kept packed under its name, and `source` holds it only where no earlier run has packed it; any
/// other B is packed in each run.
pub open spec fn packed_of(
    b_name: Seq<char>,
    k: int,
    n: int,
    flip: bool,
    constant: bool,
    source: Option<TensorView>,
    tile: u32,
) -> Option<(Seq<ScratchView>, Seq<CommandView>)> {
    let bytes = word_bytes(n * (k / 4) * 4);
    let kept = if constant {
        ScratchView::Kept(PackedKeyView { name: b_name, rows: k, cols: n }, bytes)
    } else {
        ScratchView::Temporary(bytes)
    };
    match source {
        None => if constant {
            Some((seq![kept], Seq::empty()))
        } else {
            None
        },
        Some(b) => if b.dtype != UINT8 && b.dtype != INT8 {
            None
        } else {
            match device_bytes(b.dtype, k * n) {
                Err(_) => None,
                Ok(raw) => Some(
                    (
                        seq![kept, ScratchView::Temporary(raw)],
                        seq![
                            CommandView::Upload(1, b.data),
                            pack_columns(Slot::Scratch(1), Slot::Scratch(0), k, n, flip, tile),
                        ],
                    ),
                ),
            }
        },
    }
}

/// The plan of `MatMulInteger`: A `[.., m, k]` times B `[k, n]`, with a zero point for each.
pub open spec fn matmul_integer_of(
    a: Seq<i64>,
    b: Seq<i64>,
    a_signed: bool,
    b_signed: bool,
    b_name: Seq<char>,
    constant: bool,
    source: Option<TensorView>,
    t: IntTuning,
) -> Option<PlanView> {
    match int_sizes_of(a, b) {
        None => None,
        Some((m, k, n)) => match (
            packed_of(b_name, k, n, b_signed, constant, source, t.tile),
            output_of(INT32, a.drop_last().push(n as i64), m * n),
        ) {
            (Some((scratch, setup)), Some(out)) => {
                let p = IntProblem {
                    m: m as usize,
                    k: k as usize,
                    n: n as usize,
                    a_byte_flip: word_mask(a_signed),
                    a_zp_xor: byte_mask(a_signed),
                    b_zp_xor: byte_mask(b_signed),
                };
                Some(
                    PlanView {
                        outputs: seq![out],
                        scratch,
                        commands: if m * n == 0 {
                            setup
                        } else {
                            setup.push(
                                int_product_of(
                                    p,
                                    t,
                                    seq![
                                        Slot::Input(0),
                                        Slot::Scratch(0),
                                        Slot::Input(2),
                                        Slot::Input(3),
                                        Slot::Output(0),
                                    ],
                                ),
                            )
                        },
                    },
                )
            },
            _ => None,
        },
    }
}

/// The packed columns of B.
pub fn packed_b(
    b_name: &str,
    k: usize,
    n: usize,
    flip: bool,
    constant: bool,
    source: Option<HostTensor>,
    tile: u32,
) -> (r: Result<(Vec<Scratch>, Vec<Command>)>)
    requires
        tile > 0,
        k * n <= usize::MAX,
    ensures
        match (
            r,
            packed_of(
                b_name@,
                k as int,
                n as int,
                flip,
                constant,
                match source {
                    Some(s) => Some(s@),
                    None => None,
                },
                tile,
            ),
        ) {
            (Ok((s, c)), Some((sv, cv))) => s@.map_values(|x: Scratch| x@) == sv && c@.map_values(
                |x: Command| x@,
            ) == cv,
            (Err(e), None) => e.kind() == Kind::Backend,
            _ => false,
        },
{
    let key = PackedKey { name: text::owned(b_name), rows: k, cols: n };
    let quarter: usize = k / 4;
    proof {
        let (q, ki, ni) = (quarter as int, k as int, n as int);
        assert(0 <= ni * q <= ni * q * 4 <= ki * ni) by (nonlinear_arith)
            requires
                0 <= 4 * q <= ki,
                ni >= 0,
        ;
    }
    let bytes: usize = n * quarter * 4;
    let bytes: u64 = if bytes < 4 {
        4
    } else {
        bytes as u64
    };
    let kept = if constant {
        Scratch::Kept(key, bytes)
    } else {
        Scratch::Temporary(bytes)
    };
    match source {
        None => {
            if !constant {
                return Err(backend_error("the second matrix is not there"));
            }
            let scratch: Vec<Scratch> = vec![kept];
            let commands: Vec<Command> = Vec::new();
            assert(scratch@.map_values(|x: Scratch| x@) =~= seq![kept@]);
            assert(commands@.map_values(|x: Command| x@) =~= Seq::empty());
            Ok((scratch, commands))
        },
        Some(b) => {
            if b.dtype != UINT8 && b.dtype != INT8 {
                return Err(backend_error("the second matrix does not hold bytes"));
            }
            proof {
                let (ki, ni) = (k as int, n as int);
                assert(ki * ni >= 0) by (nonlinear_arith)
                    requires
                        ki >= 0,
                        ni >= 0,
                ;
            }
            let raw: u64 = match buffer_bytes(b.dtype, k * n) {
                Ok(v) => v,
                Err(e) => {
                    return Err(e);
                },
            };
            let temporary = Scratch::Temporary(raw);
            let upload = Command::Upload(1, b.data);
            let packing = pack(Slot::Scratch(1), Slot::Scratch(0), k, n, flip, tile);
            let ghost (t, u, p) = (temporary@, upload@, packing@);
            let scratch: Vec<Scratch> = vec![kept, temporary];
            let commands: Vec<Command> = vec![upload, packing];
            assert(scratch@.map_values(|x: Scratch| x@) =~= seq![kept@, t]);
            assert(commands@.map_values(|x: Command| x@) =~= seq![u, p]);
            Ok((scratch, commands))
        },
    }
}

/// Plans `MatMulInteger`; `constant` tells whether B is, and may be kept packed.
pub fn matmul_integer(
    a_shape: &[i64],
    b_shape: &[i64],
    a_signed: bool,
    b_signed: bool,
    b_name: &str,
    constant: bool,
    source: Option<HostTensor>,
    t: IntTuning,
) -> (r: Result<Plan>)
    requires
        t.tile > 0,
    ensures
        planned(
            r,
            matmul_integer_of(
                a_shape@,
                b_shape@,
                a_signed,
                b_signed,
                b_name@,
                constant,
                match source {
                    Some(s) => Some(s@),
                    None => None,
                },
                t,
            ),
        ),
{
    let (m, k, n): (usize, usize, usize) = match int_sizes(a_shape, b_shape) {
        Some(s) => s,
        None => {
            return Err(backend_error("the matrices do not suit each other"));
        },
    };
    let (scratch, mut commands): (Vec<Scratch>, Vec<Command>) = match packed_b(
        b_name,
        k,
        n,
        b_signed,
        constant,
        source,
        t.tile,
    ) {
        Ok(p) => p,
        Err(e) => {
            return Err(e);
        },
    };
    let mut shape: Vec<i64> = section(a_shape, 0, a_shape.len() - 1);
    shape.push(b_shape[1]);
    assert(shape@ =~= a_shape@.drop_last().push(n as i64));
    let out: Produced = match output(INT32, shape, m * n) {
        Ok(p) => p,
        Err(e) => {
            return Err(e);
        },
    };
    let ghost setup = commands@.map_values(|x: Command| x@);
    if m * n > 0 {
        let p = IntProblem {
            m,
            k,
            n,
            a_byte_flip: word_mask_of(a_signed),
            a_zp_xor: byte_mask_of(a_signed),
            b_zp_xor: byte_mask_of(b_signed),
        };
        let slots: Vec<Slot> = vec![
            Slot::Input(0),
            Slot::Scratch(0),
            Slot::Input(2),
            Slot::Input(3),
            Slot::Output(0),
        ];
        assert(slots@ =~= seq![
            Slot::Input(0),
            Slot::Scratch(0),
            Slot::Input(2),
            Slot::Input(3),
            Slot::Output(0),
        ]);
        let c = mmi_dispatch(p, t, slots);
        let ghost cv = c@;
        commands.push(c);
        assert(commands@.map_values(|x: Command| x@) =~= setup.push(cv));
    }
    let plan = assembled(vec![out], scratch, commands);
    assert(plan@.outputs =~= seq![out@]);
    Ok(plan)
}

// --- ConvInteger ------------------------------------------------------------------------

/// Whether the convolution only mixes channels, pixel by pixel, and is thus a matrix product.
pub open spec fn is_pointwise(g: GeomView) -> bool {
    g.group == 1 && g.n == 1 && g.kh == 1 && g.kw == 1 && g.sh == 1 && g.sw == 1 && g.dh == 1 && g.dw
        == 1 && g.phb == 0 && g.phe == 0 && g.pwb == 0 && g.pwe == 0 && g.c_in % 4 == 0
}

fn pointwise(g: &ConvGeom) -> (r: bool)
    ensures
        r == is_pointwise(g@),
{
    let c: i64 = g.c_in;
    let low: bool = if c >= 0 {
        c % 4 == 0
    } else {
        (-(c + 1)) % 4 == 3
    };
    g.group == 1 && g.n == 1 && g.kh == 1 && g.kw == 1 && g.sh == 1 && g.sw == 1 && g.dh == 1 && g.dw
        == 1 && g.phb == 0 && g.phe == 0 && g.pwb == 0 && g.pwe == 0 && low
}

/// Types and zero points of the operands of `ConvInteger`.
#[derive(Debug, Clone, Copy, PartialEq, Eq, Structural)]
pub struct IntOperands {
    pub x_signed: bool,
    pub w_signed: bool,
    /// Whether there is a zero point for the input.
    pub x_zero: bool,
    /// Whether there is a zero point for the weights.
    pub w_zero: bool,
    /// Whether the weights are constant, and what is made of them may be kept.
    pub w_constant: bool,
}

/// The buffer of an optional input.
pub open spec fn slot_or_zero(there: bool, i: usize) -> Slot {
    if there {
        Slot::Input(i)
    } else {
        Slot::Zero
    }
}

fn zp_ref(there: bool, i: usize) -> (r: Slot)
    ensures
        r == slot_or_zero(there, i),
{
    if there {
        Slot::Input(i)
    } else {
        Slot::Zero
    }
}

/// The sizes `m`, `k`, `n` of the product that a pointwise convolution is.
pub open spec fn pointwise_sizes_of(g: GeomView) -> Option<(int, int, int)> {
    let n = g.h_out * g.w_out;
    if 0 <= g.c_out <= usize::MAX && 0 <= g.c_in <= usize::MAX && 0 <= n && in_range(n) && n
        <= usize::MAX && g.c_out * n <= usize::MAX && g.c_out * g.c_in <= usize::MAX - 3 && g.c_in
        * n <= usize::MAX {
        Some((g.c_out, g.c_in, n))
    } else {
        None
    }
}

fn pointwise_sizes(g: &ConvGeom) -> (r: Option<(usize, usize, usize)>)
    ensures
        match (r, pointwise_sizes_of(g@)) {
            (Some((m, k, n)), Some((ms, ks, ns))) => m == ms && k == ks && n == ns,
            (None, None) => true,
            _ => false,
        },
{
    let (m, k): (usize, usize) = match (size(g.c_out), size(g.c_in)) {
        (Some(m), Some(k)) => (m, k),
        _ => {
            return None;
        },
    };
    let n: usize = match g.h_out.checked_mul(g.w_out) {
        Some(p) => match size(p) {
            Some(n) => n,
            None => {
                return None;
            },
        },
        None => {
            return None;
        },
    };
    match (m.checked_mul(n), m.checked_mul(k), k.checked_mul(n)) {
        (Some(_), Some(w), Some(_)) => if w <= usize::MAX - 3 {
            Some((m, k, n))
        } else {
            None
        },
        _ => None,
    }
}

/// The copy of the weights with their signs flipped, and the command that makes it: kept and made
/// once where the weights are constant, otherwise made in each run.
pub open spec fn flipped_of(w_name: Seq<char>, constant: bool, bytes: int) -> (
    ScratchView,
    CommandView,
) {
    let words = ceil_div(bytes, 4);
    let d = dispatch_of(
        Kernel::FlipSigns,
        seq![Slot::Input(1), Slot::Scratch(1)],
        seq![w32(words)],
        ceil_div(w32(words) as int, 256),
        1,
        1,
    );
    if constant {
        (
            ScratchView::Kept(
                PackedKeyView { name: w_name + "#sign-flip"@, rows: bytes, cols: 0 },
                word_bytes(words * 4),
            ),
            CommandView::Once(1, d),
        )
    } else {
        (ScratchView::Temporary(word_bytes(words * 4)), CommandView::Run(d))
    }
}

/// A copy of the weights with their sign bits flipped, as `Scratch(1)`.
fn flipped_const(w_name: &str, constant: bool, bytes: usize) -> (r: (Scratch, Command))
    requires
        bytes <= usize::MAX - 3,
    ensures
        r.0@ == flipped_of(w_name@, constant, bytes as int).0,
        r.1@ == flipped_of(w_name@, constant, bytes as int).1,
{
    let words: usize = (bytes + 3) / 4;
    let total: u64 = if words * 4 < 4 {
        4
    } else {
        (words * 4) as u64
    };
    let key = PackedKey { name: text::joined(w_name, "#sign-flip"), rows: bytes, cols: 0 };
    let slots: Vec<Slot> = vec![Slot::Input(1), Slot::Scratch(1)];
    let push: Vec<u32> = vec![size_word(words)];
    assert(slots@ =~= seq![Slot::Input(1), Slot::Scratch(1)]);
    assert(push@ =~= seq![w32(words as int)]);
    let x: u32 = groups(size_word(words), 256);
    if constant {
        (Scratch::Kept(key, total), once(1, Kernel::FlipSigns, slots, push, x, 1, 1))
    } else {
        (Scratch::Temporary(total), run(Kernel::FlipSigns, slots, push, x, 1, 1))
    }
}

/// The plan of a pointwise convolution as the product of the weights with the packed input.
/// Signed weights are made unsigned.
pub open spec fn pointwise_plan_of(
    g: GeomView,
    o: IntOperands,
    w_name: Seq<char>,
    t: IntTuning,
) -> Option<PlanView> {
    match pointwise_sizes_of(g) {
        None => None,
        Some((m, k, n)) => match output_of(INT32, g.out_shape, m * n) {
            None => None,
            Some(out) => {
                let columns = ScratchView::Temporary(word_bytes(n * (k / 4) * 4));
                let packing = pack_columns(Slot::Input(0), Slot::Scratch(0), k, n, o.x_signed, t.tile);
                let (copy, flipping) = flipped_of(w_name, o.w_constant, m * k);
                let p = IntProblem {
                    m: m as usize,
                    k: k as usize,
                    n: n as usize,
                    a_byte_flip: 0,
                    a_zp_xor: byte_mask(o.w_signed),
                    b_zp_xor: byte_mask(o.x_signed),
                };
                let weights = if o.w_signed {
                    Slot::Scratch(1)
                } else {
                    Slot::Input(1)
                };
                let multiply = int_product_of(
                    p,
                    t,
                    seq![
                        weights,
                        Slot::Scratch(0),
                        slot_or_zero(o.w_zero, 3),
                        slot_or_zero(o.x_zero, 2),
                        Slot::Output(0),
                    ],
                );
                Some(
                    PlanView {
                        outputs: seq![out],
                        scratch: if o.w_signed {
                            seq![columns, copy]
                        } else {
                            seq![columns]
                        },
                        commands: if o.w_signed {
                            seq![packing, flipping, multiply]
                        } else {
                            seq![packing, multiply]
                        },
                    },
                )
            },
        },
    }
}

/// Plans a pointwise convolution as a matrix product.
pub fn conv_pointwise_matmul(g: ConvGeom, o: IntOperands, w_name: &str, t: IntTuning) -> (r: Result<
    Plan,
>)
    requires
        t.tile > 0,
    ensures
        planned(r, pointwise_plan_of(g@, o, w_name@, t)),
{
    let ghost v = g@;
    let (m, k, n): (usize, usize, usize) = match pointwise_sizes(&g) {
        Some(s) => s,
        None => {
            return Err(backend_error("the product is too large"));
        },
    };
    let out: Produced = match output(INT32, g.out_shape, m * n) {
        Ok(p) => p,
        Err(e) => {
            return Err(e);
        },
    };
    let quarter: usize = k / 4;
    proof {
        let (q, ki, ni) = (quarter as int, k as int, n as int);
        assert(0 <= ni * q <= ni * q * 4 <= ki * ni) by (nonlinear_arith)
            requires
                0 <= 4 * q <= ki,
                ni >= 0,
        ;
    }
    let bytes: usize = n * quarter * 4;
    let columns = Scratch::Temporary(
        if bytes < 4 {
            4
        } else {
            bytes as u64
        },
    );
    let packing = pack(Slot::Input(0), Slot::Scratch(0), k, n, o.x_signed, t.tile);
    let p = IntProblem {
        m,
        k,
        n,
        a_byte_flip: 0,
        a_zp_xor: byte_mask_of(o.w_signed),
        b_zp_xor: byte_mask_of(o.x_signed),
    };
    let weights: Slot = if o.w_signed {
        Slot::Scratch(1)
    } else {
        Slot::Input(1)
    };
    let slots: Vec<Slot> = vec![
        weights,
        Slot::Scratch(0),
        zp_ref(o.w_zero, 3),
        zp_ref(o.x_zero, 2),
        Slot::Output(0),
    ];
    assert(slots@ =~= seq![
        weights,
        Slot::Scratch(0),
        slot_or_zero(o.w_zero, 3),
        slot_or_zero(o.x_zero, 2),
        Slot::Output(0),
    ]);
    let multiply = mmi_dispatch(p, t, slots);
    let (scratch, commands): (Vec<Scratch>, Vec<Command>) = if o.w_signed {
        let (copy, flipping) = flipped_const(w_name, o.w_constant, m * k);
        (vec![columns, copy], vec![packing, flipping, multiply])
    } else {
        (vec![columns], vec![packing, multiply])
    };
    let plan = assembled(vec![out], scratch, commands);
    proof {
        let want = pointwise_plan_of(v, o, w_name@, t)->Some_0;
        assert(plan@.outputs =~= want.outputs);
        assert(plan@.scratch =~= want.scratch);
        assert(plan@.commands =~= want.commands);
    }
    Ok(plan)
}

/// The plan of `ConvInteger`: a matrix product where that suffices, otherwise one invocation
/// for each output element.
pub open spec fn conv_integer_of(
    g: GeomView,
    o: IntOperands,
    w_name: Seq<char>,
    t: IntTuning,
) -> Option<PlanView> {
    if is_pointwise(g) && g.total > 0 {
        pointwise_plan_of(g, o, w_name, t)
    } else {
        match output_of(INT32, g.out_shape, g.total) {
            None => None,
            Some(out) => Some(
                one_output(
                    out,
                    if g.total == 0 {
                        Seq::empty()
                    } else {
                        seq![
                            run_of(
                                Kernel::ConvInteger,
                                seq![
                                    Slot::Input(0),
                                    Slot::Input(1),
                                    slot_or_zero(o.x_zero, 2),
                                    slot_or_zero(o.w_zero, 3),
                                    Slot::Output(0),
                                ],
                                g.common_words() + seq![flag_of(o.x_signed), flag_of(o.w_signed)],
                                ceil_div(w32(g.total) as int, 256),
                                1,
                                1,
                            ),
                        ]
                    },
                ),
            ),
        }
    }
}

/// Plans `ConvInteger`.
pub fn conv_integer(g: ConvGeom, o: IntOperands, w_name: &str, t: IntTuning) -> (r: Result<Plan>)
    requires
        t.tile > 0,
    ensures
        planned(r, conv_integer_of(g@, o, w_name@, t)),
{
    if pointwise(&g) && g.total > 0 {
        return conv_pointwise_matmul(g, o, w_name, t);
    }
    let mut push: Vec<u32> = g.push_common();
    let ghost common = push@;
    push.push(flag(o.x_signed));
    push.push(flag(o.w_signed));
    assert(push@ =~= common + seq![flag_of(o.x_signed), flag_of(o.w_signed)]);
    let total: usize = g.total;
    let out: Produced = match output(INT32, g.out_shape, total) {
        Ok(p) => p,
        Err(e) => {
            return Err(e);
        },
    };
    if total == 0 {
        return Ok(simple(out, None));
    }
    let slots: Vec<Slot> = vec![
        Slot::Input(0),
        Slot::Input(1),
        zp_ref(o.x_zero, 2),
        zp_ref(o.w_zero, 3),
        Slot::Output(0),
    ];
    assert(slots@ =~= seq![
        Slot::Input(0),
        Slot::Input(1),
        slot_or_zero(o.x_zero, 2),
        slot_or_zero(o.w_zero, 3),
        Slot::Output(0),
    ]);
    Ok(
        simple(
            out,
            Some(run(Kernel::ConvInteger, slots, push, groups(size_word(total), 256), 1, 1)),
        ),
    )
}

} // verus!
