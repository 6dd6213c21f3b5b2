//! Convolutions.

use crate::error::{backend_error, Kind, Result};
use crate::execution::device_bytes;
use crate::floats::ONE;
use crate::host_ops::arith::quotient;
use crate::host_ops::{FLOAT, INT32};
use crate::interp::window::{
    axis_value, extent, ints_or, lemma_wide, optional, or_repeat, repeated, section, AttrsView,
    ConvGeom, GeomView, WindowAttrs,
};
use crate::num::{ceil_div, flag, flag_of, groups, in_range, narrowed, size_word, volume, volume_of, w32, word};
use crate::plan::{
    assembled, buffer_bytes, dispatch_of, once, one_output, output, output_of, planned, run, run_of,
    simple, Command, CommandView, Kernel, PackedKey, PackedKeyView, Plan, PlanView, Produced,
    Scratch, ScratchView, Slot,
};
use crate::text;
use vstd::prelude::*;

verus! {

// --- convolution ------------------------------------------------------------------------

/// How a convolution is laid out on the device.
#[derive(Debug, Clone, Copy, PartialEq, Eq, Structural)]
pub struct ConvTuning {
    /// Into how many slices the inner dimension is cut, where it is.
    pub split: Option<u32>,
    /// Whether the large tile pays.
    pub blocked: bool,
    pub tile: u32,
    pub blocked_tile: u32,
}

/// Rows, columns and depth of the matrix product that a convolution with one group is.
pub open spec fn product_size_of(g: GeomView) -> Option<(int, int, int)> {
    if in_range(g.h_out * g.w_out) && in_range(g.gsi * g.kh) && in_range(g.gsi * g.kh * g.kw) {
        Some((g.h_out * g.w_out, g.c_out, g.gsi * g.kh * g.kw))
    } else {
        None
    }
}

/// Pixels, output channels and depth of the matrix product that a convolution with one group
/// is; the choice of a [`ConvTuning`] rests on them.
pub fn product_size(g: &ConvGeom) -> (r: Option<(i64, i64, i64)>)
    ensures
        match (r, product_size_of(g@)) {
            (Some((p, c, d)), Some((ps, cs, ds))) => p == ps && c == cs && d == ds,
            (None, None) => true,
            _ => false,
        },
{
    let pixels: i64 = match g.h_out.checked_mul(g.w_out) {
        Some(p) => p,
        None => {
            return None;
        },
    };
    let depth: i64 = match g.gsi.checked_mul(g.kh) {
        Some(d) => match d.checked_mul(g.kw) {
            Some(e) => e,
            None => {
                return None;
            },
        },
        None => {
            return None;
        },
    };
    Some((pixels, g.c_out, depth))
}

/// The buffer of the optional third input.
pub open spec fn bias_slot(has_bias: bool) -> Slot {
    if has_bias {
        Slot::Input(2)
    } else {
        Slot::Zero
    }
}

fn bias_of(has_bias: bool) -> (r: Slot)
    ensures
        r == bias_slot(has_bias),
{
    if has_bias {
        Slot::Input(2)
    } else {
        Slot::Zero
    }
}

/// The slices of the inner dimension: only a convolution with one group can be cut.
pub open spec fn slices_of(g: GeomView, t: ConvTuning) -> Option<u32> {
    if g.group == 1 {
        t.split
    } else {
        None
    }
}

pub open spec fn slice_count(split: Option<u32>) -> u32 {
    match split {
        Some(s) => s,
        None => 1,
    }
}

/// The kernel of a convolution and the size of its tile.
pub open spec fn conv_kernel(g: GeomView, t: ConvTuning) -> (Kernel, u32) {
    if g.group != 1 {
        (Kernel::ConvGrouped, 0)
    } else if t.split is Some {
        (Kernel::ConvSplit, t.blocked_tile)
    } else if t.blocked {
        (Kernel::Conv, t.blocked_tile)
    } else {
        (Kernel::ConvSmall, t.tile)
    }
}

/// At least one.
pub open spec fn one_or_more(n: u32) -> int {
    if n == 0 {
        1
    } else {
        n as int
    }
}

/// The work groups of a convolution: a tile of pixels and channels for each image and slice,
/// or one for every 256 output elements.
pub open spec fn conv_grid(g: GeomView, t: ConvTuning) -> Option<(int, int, int)> {
    if g.group == 1 {
        let tile = conv_kernel(g, t).1 as int;
        let z = one_or_more(w32(g.n)) * slice_count(t.split);
        if z <= u32::MAX && in_range(g.h_out * g.w_out) {
            Some(
                (
                    ceil_div(w32(g.h_out * g.w_out) as int, tile),
                    ceil_div(w32(g.c_out) as int, tile),
                    z,
                ),
            )
        } else {
            None
        }
    } else {
        Some((ceil_div(w32(g.total) as int, 256), 1, 1))
    }
}

/// The plan of a convolution. Where the inner dimension is cut, every slice gives a partial
/// image, and a second pass adds them up.
pub open spec fn conv_plan_of(g: GeomView, has_bias: bool, t: ConvTuning) -> Option<PlanView> {
    let split = slices_of(g, t);
    let push = g.common_words() + seq![flag_of(has_bias), slice_count(split)];
    let bias = bias_slot(has_bias);
    match (output_of(FLOAT, g.out_shape, g.total), conv_grid(g, t)) {
        (Some(out), Some(grid)) => if g.total == 0 {
            Some(one_output(out, Seq::empty()))
        } else if split is None {
            Some(
                one_output(
                    out,
                    seq![
                        run_of(
                            conv_kernel(g, t).0,
                            seq![Slot::Input(0), Slot::Input(1), bias, Slot::Output(0)],
                            push,
                            grid.0,
                            grid.1,
                            grid.2,
                        ),
                    ],
                ),
            )
        } else {
            match device_bytes(FLOAT, split->Some_0 * g.total) {
                Err(_) => None,
                Ok(bytes) => Some(
                    PlanView {
                        outputs: seq![out],
                        scratch: seq![ScratchView::Temporary(bytes)],
                        commands: seq![
                            run_of(
                                Kernel::ConvSplit,
                                seq![Slot::Input(0), Slot::Input(1), bias, Slot::Scratch(0)],
                                push,
                                grid.0,
                                grid.1,
                                grid.2,
                            ),
                            run_of(
                                Kernel::ConvSplitReduce,
                                seq![Slot::Scratch(0), bias, Slot::Output(0)],
                                push,
                                ceil_div(w32(g.total) as int, 256),
                                1,
                                1,
                            ),
                        ],
                    },
                ),
            }
        },
        (Some(out), None) => if g.total == 0 {
            Some(one_output(out, Seq::empty()))
        } else {
            None
        },
        _ => None,
    }
}

/// Plans a floating-point convolution.
pub fn conv_f32(g: ConvGeom, has_bias: bool, t: ConvTuning) -> (r: Result<Plan>)
    requires
        t.tile > 0,
        t.blocked_tile > 0,
    ensures
        planned(r, conv_plan_of(g@, has_bias, t)),
{
    let mut push: Vec<u32> = g.push_common();
    let ghost v = g@;
    let gemm: bool = g.group == 1;
    let split: Option<u32> = if gemm {
        t.split
    } else {
        None
    };
    let slices: u32 = match split {
        Some(s) => s,
        None => 1,
    };
    push.push(flag(has_bias));
    push.push(slices);
    assert(push@ =~= v.common_words() + seq![flag_of(has_bias), slice_count(split)]);
    let total: usize = g.total;
    let (n, c_out, h_out, w_out): (i64, i64, i64, i64) = (g.n, g.c_out, g.h_out, g.w_out);
    let out: Produced = match output(FLOAT, g.out_shape, total) {
        Ok(p) => p,
        Err(e) => {
            return Err(e);
        },
    };
    if total == 0 {
        return Ok(simple(out, None));
    }
    let whole: u32 = groups(size_word(total), 256);
    let (kernel, tile): (Kernel, u32) = if !gemm {
        (Kernel::ConvGrouped, 0)
    } else if split.is_some() {
        (Kernel::ConvSplit, t.blocked_tile)
    } else if t.blocked {
        (Kernel::Conv, t.blocked_tile)
    } else {
        (Kernel::ConvSmall, t.tile)
    };
    let (x, y, z): (u32, u32, u32) = if gemm {
        let images: u32 = word(n);
        let images: u32 = if images == 0 {
            1
        } else {
            images
        };
        match (images.checked_mul(slices), h_out.checked_mul(w_out)) {
            (Some(z), Some(pixels)) => (groups(word(pixels), tile), groups(word(c_out), tile), z),
            _ => {
                return Err(backend_error("the dispatch is too large"));
            },
        }
    } else {
        (whole, 1, 1)
    };
    let bias: Slot = bias_of(has_bias);
    match split {
        None => {
            let slots: Vec<Slot> = vec![Slot::Input(0), Slot::Input(1), bias, Slot::Output(0)];
            assert(slots@ =~= seq![Slot::Input(0), Slot::Input(1), bias, Slot::Output(0)]);
            Ok(simple(out, Some(run(kernel, slots, push, x, y, z))))
        },
        Some(s) => {
            let count: usize = match (s as usize).checked_mul(total) {
                Some(c) => c,
                None => {
                    proof {
                        lemma_too_many(s as int * total);
                    }
                    return Err(backend_error("the partial images are too large"));
                },
            };
            let bytes: u64 = match buffer_bytes(FLOAT, count) {
                Ok(b) => b,
                Err(e) => {
                    return Err(e);
                },
            };
            let push_again: Vec<u32> = push.clone();
            let first: Vec<Slot> = vec![Slot::Input(0), Slot::Input(1), bias, Slot::Scratch(0)];
            assert(first@ =~= seq![Slot::Input(0), Slot::Input(1), bias, Slot::Scratch(0)]);
            let second: Vec<Slot> = vec![Slot::Scratch(0), bias, Slot::Output(0)];
            assert(second@ =~= seq![Slot::Scratch(0), bias, Slot::Output(0)]);
            let commands: Vec<Command> = vec![
                run(kernel, first, push, x, y, z),
                run(Kernel::ConvSplitReduce, second, push_again, whole, 1, 1),
            ];
            let plan = assembled(vec![out], vec![Scratch::Temporary(bytes)], commands);
            proof {
                let want = conv_plan_of(v, has_bias, t)->Some_0;
                assert(plan@.outputs =~= want.outputs);
                assert(plan@.scratch =~= want.scratch);
                assert(plan@.commands =~= want.commands);
            }
            Ok(plan)
        },
    }
}

// --- transposed convolution -------------------------------------------------------------

/// The size to which a transposed convolution grows a dimension: `in_dim` windows of `k`
/// elements, `d` apart, at a distance of `s`, without the padding `b` and `e` and with `extra`
/// elements.
pub open spec fn grown(
    in_dim: int,
    b: int,
    e: int,
    k: int,
    s: int,
    d: int,
    extra: int,
) -> int {
    (in_dim - 1) * s - b - e + d * (k - 1) + 1 + extra
}

/// A convolution with the same window takes the grown size back to the size before.
pub proof fn law_grown_shrinks(in_dim: int, b: int, e: int, k: int, s: int, d: int, extra: int)
    requires
        in_dim >= 1,
        s >= 1,
        0 <= extra < s,
    ensures
        extent(grown(in_dim, b, e, k, s, d, extra), b, e, k, s, d) == in_dim,
{
    let room = (in_dim - 1) * s + extra;
    assert(room >= 0) by (nonlinear_arith)
        requires
            in_dim >= 1,
            s >= 1,
            extra >= 0,
            room == (in_dim - 1) * s + extra,
    ;
    vstd::arithmetic::div_mod::lemma_fundamental_div_mod_converse(room, s, in_dim - 1, extra);
    assert(quotient(room, s) == in_dim - 1);
}

fn grown_of(in_dim: i64, b: i64, e: i64, k: i64, s: i64, d: i64, extra: i64) -> (r: Option<i64>)
    ensures
        match r {
            Some(v) => v == grown(
                in_dim as int,
                b as int,
                e as int,
                k as int,
                s as int,
                d as int,
                extra as int,
            ),
            None => !in_range(
                grown(
                    in_dim as int,
                    b as int,
                    e as int,
                    k as int,
                    s as int,
                    d as int,
                    extra as int,
                ),
            ),
        },
{
    proof {
        lemma_wide(s, in_dim);
        lemma_wide(d, k);
    }
    let span: i128 = (in_dim as i128 - 1) * (s as i128);
    let reach: i128 = (d as i128) * (k as i128 - 1);
    match span.checked_add(reach) {
        Some(v) => if -0x1_0000_0000_0000_0000_0000 <= v && v <= 0x1_0000_0000_0000_0000_0000 {
            narrowed(v - b as i128 - e as i128 + 1 + extra as i128)
        } else {
            None
        },
        None => None,
    }
}

/// The geometry of a transposed convolution: input `x`, weights `w` (input channels, output
/// channels of a group, kernel). `gsi` is then the number of output channels of a group.
pub open spec fn transposed_of(
    attrs: AttrsView,
    output_padding: Option<Seq<i64>>,
    x: Seq<i64>,
    w: Seq<i64>,
) -> Option<GeomView> {
    let s = x.len() - 2;
    let kernel = ints_or(attrs.kernel, w.skip(2));
    let strides = ints_or(attrs.strides, repeated(1, s));
    let dilations = ints_or(attrs.dilations, repeated(1, s));
    let pads = ints_or(attrs.pads, repeated(0, 2 * s));
    let extra = ints_or(output_padding, repeated(0, s));
    if (s != 1 && s != 2) || attrs.group < 1 || w.len() < 2 || kernel.len() != s || strides.len()
        != s || dilations.len() != s || extra.len() != s || pads.len() != 2 * s {
        None
    } else {
        let (h_in, w_in) = (x[2] as int, axis_value(x, 3, 1));
        let (kh, kw) = (kernel[0] as int, axis_value(kernel, 1, 1));
        let (sh, sw) = (strides[0] as int, axis_value(strides, 1, 1));
        let (dh, dw) = (dilations[0] as int, axis_value(dilations, 1, 1));
        let (phb, phe) = (pads[0] as int, pads[s] as int);
        let (pwb, pwe) = if s == 1 {
            (0, 0)
        } else {
            (pads[1] as int, pads[3] as int)
        };
        let h_out = grown(h_in, phb, phe, kh, sh, dh, extra[0] as int);
        let w_out = grown(w_in, pwb, pwe, kw, sw, dw, axis_value(extra, 1, 0));
        let c_out = w[1] * attrs.group;
        let out = seq![x[0], c_out as i64, h_out as i64, w_out as i64];
        if !in_range(c_out) || !in_range(h_out) || !in_range(w_out) || h_out <= 0 || w_out <= 0 {
            None
        } else {
            match volume_of(out) {
                None => None,
                Some(total) => Some(
                    GeomView {
                        n: x[0] as int,
                        c_in: x[1] as int,
                        c_out,
                        group: attrs.group as int,
                        gsi: w[1] as int,
                        h_in,
                        w_in,
                        h_out,
                        w_out,
                        kh,
                        kw,
                        sh,
                        sw,
                        dh,
                        dw,
                        phb,
                        phe,
                        pwb,
                        pwe,
                        out_shape: out.take(s + 2),
                        total,
                    },
                ),
            }
        }
    }
}

/// Attributes and output shape of a transposed convolution.
pub fn transposed_geometry(
    attrs: WindowAttrs,
    output_padding: Option<Vec<i64>>,
    x_shape: &[i64],
    w_shape: &[i64],
) -> (r: Result<ConvGeom>)
    ensures
        match (r, transposed_of(attrs@, optional(output_padding), x_shape@, w_shape@)) {
            (Ok(g), Some(v)) => g@ == v,
            (Err(e), None) => e.kind() == Kind::Backend,
            _ => false,
        },
{
    let rank: usize = x_shape.len();
    let wr: usize = w_shape.len();
    if rank != 3 && rank != 4 {
        return Err(backend_error("only one or two spatial dimensions"));
    }
    if attrs.group < 1 || wr < 2 {
        return Err(backend_error("the groups or the weights are not valid"));
    }
    let s: usize = rank - 2;
    let kernel: Vec<i64> = match attrs.kernel {
        Some(k) => k,
        None => {
            let k = section(w_shape, 2, wr);
            assert(k@ =~= w_shape@.skip(2));
            k
        },
    };
    let strides: Vec<i64> = or_repeat(attrs.strides, 1, s);
    let dilations: Vec<i64> = or_repeat(attrs.dilations, 1, s);
    let pads: Vec<i64> = or_repeat(attrs.pads, 0, 2 * s);
    let extra: Vec<i64> = or_repeat(output_padding, 0, s);
    if kernel.len() != s || strides.len() != s || dilations.len() != s || extra.len() != s
        || pads.len() != 2 * s {
        return Err(backend_error("the attributes do not suit the number of dimensions"));
    }
    let one: bool = rank == 3;
    let (h_in, w_in): (i64, i64) = if one {
        (x_shape[2], 1)
    } else {
        (x_shape[2], x_shape[3])
    };
    let (kh, kw): (i64, i64) = if one {
        (kernel[0], 1)
    } else {
        (kernel[0], kernel[1])
    };
    let (sh, sw): (i64, i64) = if one {
        (strides[0], 1)
    } else {
        (strides[0], strides[1])
    };
    let (dh, dw): (i64, i64) = if one {
        (dilations[0], 1)
    } else {
        (dilations[0], dilations[1])
    };
    let (phb, phe, pwb, pwe): (i64, i64, i64, i64) = if one {
        (pads[0], pads[1], 0, 0)
    } else {
        (pads[0], pads[2], pads[1], pads[3])
    };
    let (eh, ew): (i64, i64) = if one {
        (extra[0], 0)
    } else {
        (extra[0], extra[1])
    };
    let (n, c_in, gsi): (i64, i64, i64) = (x_shape[0], x_shape[1], w_shape[1]);
    let group: i64 = attrs.group;
    let c_out: i64 = match gsi.checked_mul(group) {
        Some(c) => c,
        None => {
            return Err(backend_error("too many channels"));
        },
    };
    let (h_out, w_out): (i64, i64) = match (
        grown_of(h_in, phb, phe, kh, sh, dh, eh),
        grown_of(w_in, pwb, pwe, kw, sw, dw, ew),
    ) {
        (Some(h), Some(w)) => (h, w),
        _ => {
            return Err(backend_error("the output is too large"));
        },
    };
    if h_out <= 0 || w_out <= 0 {
        return Err(backend_error("the output is empty"));
    }
    let full: Vec<i64> = vec![n, c_out, h_out, w_out];
    assert(full@ =~= seq![n, c_out, h_out, w_out]);
    let total: usize = match volume(full.as_slice()) {
        Some(t) => t,
        None => {
            return Err(backend_error("the output is too large"));
        },
    };
    let out_shape: Vec<i64> = if one {
        vec![n, c_out, h_out]
    } else {
        full
    };
    let g = ConvGeom {
        n,
        c_in,
        c_out,
        group,
        gsi,
        h_in,
        w_in,
        h_out,
        w_out,
        kh,
        kw,
        sh,
        sw,
        dh,
        dw,
        phb,
        phe,
        pwb,
        pwe,
        out_shape,
        total,
    };
    assert(g@.out_shape =~= seq![n, c_out, h_out, w_out].take(rank as int));
    Ok(g)
}

/// What the choice between the two ways of a transposed convolution rests on.
#[derive(Debug, Clone, Copy, PartialEq, Eq)]
pub struct PhaseGeom {
    pub batch: i64,
    pub group: i64,
    pub kernel: (i64, i64),
    pub stride: (i64, i64),
    pub dilation: (i64, i64),
    pub zero_pads: bool,
    pub zero_output_padding: bool,
    /// Multiplications for one image, as far as they can be counted.
    pub macs: i64,
}

/// The nearest 64-bit integer.
pub open spec fn clamped(x: int) -> int {
    if x < i64::MIN {
        i64::MIN as int
    } else if x > i64::MAX {
        i64::MAX as int
    } else {
        x
    }
}

fn saturating(a: i64, b: i64) -> (r: i64)
    ensures
        r == clamped(a * b),
{
    proof {
        let (x, y) = (a as int, b as int);
        assert(-0x4000_0000_0000_0000_0000_0000_0000_0000 <= x * y
            <= 0x4000_0000_0000_0000_0000_0000_0000_0000) by (nonlinear_arith)
            requires
                -0x8000_0000_0000_0000 <= x <= 0x8000_0000_0000_0000,
                -0x8000_0000_0000_0000 <= y <= 0x8000_0000_0000_0000,
        ;
    }
    let p: i128 = (a as i128) * (b as i128);
    if p < i64::MIN as i128 {
        i64::MIN
    } else if p > i64::MAX as i128 {
        i64::MAX
    } else {
        p as i64
    }
}

pub open spec fn only_zeros(s: Seq<i64>) -> bool {
    forall|i: int| 0 <= i < s.len() ==> (#[trigger] s[i]) == 0
}

pub open spec fn all_zero(v: Option<Seq<i64>>) -> bool {
    match v {
        Some(s) => only_zeros(s),
        None => true,
    }
}

fn is_zero_list(v: &Option<Vec<i64>>) -> (r: bool)
    ensures
        r == all_zero(optional(*v)),
{
    match v {
        None => true,
        Some(s) => {
            let n: usize = s.len();
            let mut i: usize = 0;
            while i < n
                invariant
                    i <= n,
                    n == s@.len(),
                    optional(*v) == Some(s@),
                    forall|k: int| 0 <= k < i ==> #[trigger] s@[k] == 0,
                decreases n - i,
            {
                if s[i] != 0 {
                    assert(!only_zeros(s@));
                    return false;
                }
                i += 1;
            }
            true
        },
    }
}

pub open spec fn phase_geom_of(g: GeomView, output_padding: Option<Seq<i64>>) -> PhaseGeom {
    PhaseGeom {
        batch: g.n as i64,
        group: g.group as i64,
        kernel: (g.kh as i64, g.kw as i64),
        stride: (g.sh as i64, g.sw as i64),
        dilation: (g.dh as i64, g.dw as i64),
        zero_pads: g.phb == 0 && g.phe == 0 && g.pwb == 0 && g.pwe == 0,
        zero_output_padding: all_zero(output_padding),
        macs: clamped(clamped(clamped(g.c_in * g.c_out) * g.h_out) * g.w_out) as i64,
    }
}

/// What the choice between the two ways rests on.
pub fn phase_geom(g: &ConvGeom, output_padding: &Option<Vec<i64>>) -> (r: PhaseGeom)
    ensures
        r == phase_geom_of(g@, optional(*output_padding)),
{
    PhaseGeom {
        batch: g.n,
        group: g.group,
        kernel: (g.kh, g.kw),
        stride: (g.sh, g.sw),
        dilation: (g.dh, g.dw),
        zero_pads: g.phb == 0 && g.phe == 0 && g.pwb == 0 && g.pwe == 0,
        zero_output_padding: is_zero_list(output_padding),
        macs: saturating(saturating(saturating(g.c_in, g.c_out), g.h_out), g.w_out),
    }
}

/// The sizes of the products into which a transposed convolution falls apart.
pub struct PhaseDims {
    pub c_in: usize,
    pub c_out: usize,
    pub h_in: usize,
    pub w_in: usize,
    pub h_out: usize,
    pub w_out: usize,
    pub kh: usize,
    pub kw: usize,
    pub sh: usize,
    pub sw: usize,
    /// Input pixels.
    pub n: usize,
    /// Elements of one product.
    pub part: usize,
    /// Output pixels.
    pub plane: usize,
    /// Output elements.
    pub whole: usize,
    /// Weights of one kernel place.
    pub weights: usize,
    /// Kernel places.
    pub places: usize,
}

/// Whether every size of the phases can be counted.
pub open spec fn phases_fit(g: GeomView) -> bool {
    &&& 0 <= g.c_in <= usize::MAX
    &&& 0 <= g.c_out <= usize::MAX
    &&& 0 <= g.h_in <= usize::MAX
    &&& 0 <= g.w_in <= usize::MAX
    &&& 0 <= g.h_out <= usize::MAX
    &&& 0 <= g.w_out <= usize::MAX
    &&& 0 <= g.kh <= usize::MAX
    &&& 0 <= g.kw <= usize::MAX
    &&& 0 <= g.sh <= usize::MAX
    &&& 0 <= g.sw <= usize::MAX
    &&& g.h_in * g.w_in <= usize::MAX
    &&& g.c_out * (g.h_in * g.w_in) <= usize::MAX
    &&& g.h_out * g.w_out <= usize::MAX
    &&& g.c_out * (g.h_out * g.w_out) <= usize::MAX
    &&& g.c_in * g.c_out <= usize::MAX
    &&& g.kh * g.kw < usize::MAX
}

impl PhaseDims {
    /// Whether these are the sizes of `g`.
    pub open spec fn of(self, g: GeomView) -> bool {
        &&& self.c_in == g.c_in
        &&& self.c_out == g.c_out
        &&& self.h_in == g.h_in
        &&& self.w_in == g.w_in
        &&& self.h_out == g.h_out
        &&& self.w_out == g.w_out
        &&& self.kh == g.kh
        &&& self.kw == g.kw
        &&& self.sh == g.sh
        &&& self.sw == g.sw
        &&& self.n == g.h_in * g.w_in
        &&& self.part == g.c_out * (g.h_in * g.w_in)
        &&& self.plane == g.h_out * g.w_out
        &&& self.whole == g.c_out * (g.h_out * g.w_out)
        &&& self.weights == g.c_in * g.c_out
        &&& self.places == g.kh * g.kw
        &&& self.places < usize::MAX
    }
}

/// `v` as a size, where it is one.
pub fn size(v: i64) -> (r: Option<usize>)
    ensures
        match r {
            Some(u) => u == v,
            None => v < 0 || v > usize::MAX,
        },
{
    if v < 0 || v as u64 > usize::MAX as u64 {
        None
    } else {
        Some(v as usize)
    }
}

fn phase_dims(g: &ConvGeom) -> (r: Option<PhaseDims>)
    ensures
        match r {
            Some(d) => phases_fit(g@) && d.of(g@),
            None => !phases_fit(g@),
        },
{
    let (c_in, c_out): (usize, usize) = match (size(g.c_in), size(g.c_out)) {
        (Some(a), Some(b)) => (a, b),
        _ => {
            return None;
        },
    };
    let (h_in, w_in): (usize, usize) = match (size(g.h_in), size(g.w_in)) {
        (Some(a), Some(b)) => (a, b),
        _ => {
            return None;
        },
    };
    let (h_out, w_out): (usize, usize) = match (size(g.h_out), size(g.w_out)) {
        (Some(a), Some(b)) => (a, b),
        _ => {
            return None;
        },
    };
    let (kh, kw): (usize, usize) = match (size(g.kh), size(g.kw)) {
        (Some(a), Some(b)) => (a, b),
        _ => {
            return None;
        },
    };
    let (sh, sw): (usize, usize) = match (size(g.sh), size(g.sw)) {
        (Some(a), Some(b)) => (a, b),
        _ => {
            return None;
        },
    };
    let (n, plane): (usize, usize) = match (h_in.checked_mul(w_in), h_out.checked_mul(w_out)) {
        (Some(a), Some(b)) => (a, b),
        _ => {
            return None;
        },
    };
    let (part, whole): (usize, usize) = match (c_out.checked_mul(n), c_out.checked_mul(plane)) {
        (Some(a), Some(b)) => (a, b),
        _ => {
            return None;
        },
    };
    let (weights, places): (usize, usize) = match (c_in.checked_mul(c_out), kh.checked_mul(kw)) {
        (Some(a), Some(b)) => (a, b),
        _ => {
            return None;
        },
    };
    if places == usize::MAX {
        return None;
    }
    Some(
        PhaseDims {
            c_in,
            c_out,
            h_in,
            w_in,
            h_out,
            w_out,
            kh,
            kw,
            sh,
            sw,
            n,
            part,
            plane,
            whole,
            weights,
            places,
        },
    )
}

/// The name under which the weights of kernel place `p` are kept.
pub open spec fn phase_key(g: GeomView, w_name: Seq<char>, p: int) -> PackedKeyView {
    PackedKeyView {
        name: w_name + "#ct"@ + text::decimal_digits(p as nat),
        rows: g.c_in,
        cols: g.c_out,
    }
}

/// Fills the output with the bias, where a stride wider than the kernel leaves pixels that no
/// product reaches.
pub open spec fn fill_commands(g: GeomView, has_bias: bool) -> Seq<CommandView> {
    let plane = g.h_out * g.w_out;
    if g.sh > g.kh || g.sw > g.kw {
        seq![
            run_of(
                Kernel::ConvTransposeFill,
                seq![bias_slot(has_bias), Slot::Output(0)],
                seq![w32(g.c_out * plane), w32(plane), flag_of(has_bias)],
                ceil_div(w32(g.c_out * plane) as int, 256),
                1,
                1,
            ),
        ]
    } else {
        Seq::empty()
    }
}

/// Packs the weights of kernel place `p`, once.
pub open spec fn pack_command(g: GeomView, p: int) -> CommandView {
    CommandView::Once(
        1 + p,
        dispatch_of(
            Kernel::ConvTransposePack,
            seq![Slot::Input(1), Slot::Scratch((1 + p) as usize)],
            seq![w32(g.c_in * g.c_out), w32(g.kh * g.kw), w32(p)],
            ceil_div(w32(g.c_in * g.c_out) as int, 256),
            1,
            1,
        ),
    )
}

/// The product of the weights of kernel place `p` with the input.
pub open spec fn phase_product(g: GeomView, has_bias: bool, tile: u32, p: int) -> CommandView {
    let n = g.h_in * g.w_in;
    run_of(
        Kernel::ConvTransposeGemm,
        seq![Slot::Scratch((1 + p) as usize), Slot::Input(0), bias_slot(has_bias), Slot::Scratch(0)],
        seq![
            w32(g.c_out),
            w32(g.c_in),
            w32(n),
            if has_bias {
                5u32
            } else {
                1u32
            },
            ONE,
            ONE,
            w32(g.c_out),
            1u32,
        ],
        ceil_div(w32(n) as int, tile as int),
        ceil_div(w32(g.c_out) as int, tile as int),
        1,
    )
}

/// Puts the product of kernel place `p` where it belongs in the output.
pub open spec fn interleave_command(g: GeomView, p: int) -> CommandView {
    let n = g.h_in * g.w_in;
    run_of(
        Kernel::ConvTransposeInterleave,
        seq![Slot::Scratch(0), Slot::Output(0)],
        seq![
            w32(g.c_out * n),
            w32(g.h_in),
            w32(g.w_in),
            w32(g.h_out),
            w32(g.w_out),
            w32(g.sh),
            w32(g.sw),
            w32(p / g.kw),
            w32(p % g.kw),
        ],
        ceil_div(w32(g.c_out * n) as int, 256),
        1,
        1,
    )
}

/// The commands of the first `k` kernel places, row by row.
pub open spec fn phase_commands(g: GeomView, has_bias: bool, tile: u32, k: int) -> Seq<CommandView>
    decreases k,
{
    if k <= 0 {
        Seq::empty()
    } else {
        phase_commands(g, has_bias, tile, k - 1) + seq![
            pack_command(g, k - 1),
            phase_product(g, has_bias, tile, k - 1),
            interleave_command(g, k - 1),
        ]
    }
}

/// The buffers of the phases: one for the products, and the packed weights of each place.
pub open spec fn phase_buffers(
    g: GeomView,
    w_name: Seq<char>,
    part: int,
    weights: int,
    k: int,
) -> Seq<ScratchView> {
    seq![ScratchView::Temporary(part)] + Seq::new(
        k as nat,
        |p: int| ScratchView::Kept(phase_key(g, w_name, p), weights),
    )
}

/// The plan of a transposed convolution as one matrix product for each place of the kernel.
pub open spec fn phase_plan_of(
    g: GeomView,
    has_bias: bool,
    w_name: Seq<char>,
    tile: u32,
) -> Option<PlanView> {
    match (
        output_of(FLOAT, g.out_shape, g.total),
        device_bytes(FLOAT, g.c_out * (g.h_in * g.w_in)),
        device_bytes(FLOAT, g.c_in * g.c_out),
    ) {
        (Some(out), Ok(part), Ok(weights)) => if phases_fit(g) {
            Some(
                PlanView {
                    outputs: seq![out],
                    scratch: phase_buffers(g, w_name, part, weights, g.kh * g.kw),
                    commands: fill_commands(g, has_bias) + phase_commands(
                        g,
                        has_bias,
                        tile,
                        g.kh * g.kw,
                    ),
                },
            )
        } else {
            None
        },
        _ => None,
    }
}

/// The commands and buffers for the places of the kernel.
fn phase_parts(
    d: &PhaseDims,
    has_bias: bool,
    w_name: &str,
    tile: u32,
    part: u64,
    weights: u64,
    commands: &mut Vec<Command>,
    Ghost(g): Ghost<GeomView>,
) -> (r: Vec<Scratch>)
    requires
        tile > 0,
        d.of(g),
    ensures
        final(commands)@.map_values(|c: Command| c@) == old(commands)@.map_values(
            |c: Command| c@,
        ) + phase_commands(g, has_bias, tile, g.kh * g.kw),
        r@.map_values(|s: Scratch| s@) == phase_buffers(
            g,
            w_name@,
            part as int,
            weights as int,
            g.kh * g.kw,
        ),
{
    let mut scratch: Vec<Scratch> = Vec::new();
    scratch.push(Scratch::Temporary(part));
    let bias: Slot = bias_of(has_bias);
    let flags: u32 = if has_bias {
        5
    } else {
        1
    };
    let (c_out, c_in, n, part_words): (u32, u32, u32, u32) = (
        size_word(d.c_out),
        size_word(d.c_in),
        size_word(d.n),
        size_word(d.part),
    );
    let mut p: usize = 0;
    let mut row: usize = 0;
    let mut col: usize = 0;
    let ghost was = commands@.map_values(|c: Command| c@);
    proof {
        assert(was + Seq::<CommandView>::empty() =~= was);
        assert(scratch@.map_values(|s: Scratch| s@) =~= phase_buffers(
            g,
            w_name@,
            part as int,
            weights as int,
            0,
        ));
    }
    while p < d.places
        invariant
            p <= d.places,
            tile > 0,
            d.of(g),
            bias == bias_slot(has_bias),
            flags == (if has_bias {
                5u32
            } else {
                1u32
            }),
            c_out == w32(g.c_out),
            c_in == w32(g.c_in),
            n == w32(g.h_in * g.w_in),
            part_words == w32(g.c_out * (g.h_in * g.w_in)),
            p < d.places ==> col < d.kw,
            p == row * d.kw + col,
            commands@.map_values(|c: Command| c@) == was + phase_commands(
                g,
                has_bias,
                tile,
                p as int,
            ),
            scratch@.map_values(|s: Scratch| s@) == phase_buffers(
                g,
                w_name@,
                part as int,
                weights as int,
                p as int,
            ),
        decreases d.places - p,
    {
        let ghost before = commands@.map_values(|c: Command| c@);
        let ghost buffers = scratch@.map_values(|s: Scratch| s@);
        proof {
            vstd::arithmetic::div_mod::lemma_fundamental_div_mod_converse(
                p as int,
                d.kw as int,
                row as int,
                col as int,
            );
        }
        let stem: String = text::joined(w_name, "#ct");
        let key = PackedKey {
            name: text::joined(stem.as_str(), text::decimal(p as u64).as_str()),
            rows: d.c_in,
            cols: d.c_out,
        };
        scratch.push(Scratch::Kept(key, weights));
        let pack_slots: Vec<Slot> = vec![Slot::Input(1), Slot::Scratch(p + 1)];
        let pack_push: Vec<u32> = vec![
            size_word(d.weights),
            size_word(d.places),
            size_word(p),
        ];
        let mul_slots: Vec<Slot> = vec![
            Slot::Scratch(p + 1),
            Slot::Input(0),
            bias,
            Slot::Scratch(0),
        ];
        let mul_push: Vec<u32> = vec![c_out, c_in, n, flags, ONE, ONE, c_out, 1];
        let put_slots: Vec<Slot> = vec![Slot::Scratch(0), Slot::Output(0)];
        let put_push: Vec<u32> = vec![
            part_words,
            size_word(d.h_in),
            size_word(d.w_in),
            size_word(d.h_out),
            size_word(d.w_out),
            size_word(d.sh),
            size_word(d.sw),
            size_word(row),
            size_word(col),
        ];
        let pack = once(
            p + 1,
            Kernel::ConvTransposePack,
            pack_slots,
            pack_push,
            groups(size_word(d.weights), 256),
            1,
            1,
        );
        let mul = run(
            Kernel::ConvTransposeGemm,
            mul_slots,
            mul_push,
            groups(n, tile),
            groups(c_out, tile),
            1,
        );
        let put = run(
            Kernel::ConvTransposeInterleave,
            put_slots,
            put_push,
            groups(part_words, 256),
            1,
            1,
        );
        assert(pack@ == pack_command(g, p as int));
        assert(mul@ == phase_product(g, has_bias, tile, p as int));
        assert(put@ == interleave_command(g, p as int));
        commands.push(pack);
        commands.push(mul);
        commands.push(put);
        proof {
            assert(commands@.map_values(|c: Command| c@) =~= before + seq![pack@, mul@, put@]);
            assert(before + seq![pack@, mul@, put@] =~= was + (phase_commands(
                g,
                has_bias,
                tile,
                p as int,
            ) + seq![pack@, mul@, put@]));
            assert(scratch@.map_values(|s: Scratch| s@) =~= buffers.push(
                ScratchView::Kept(phase_key(g, w_name@, p as int), weights as int),
            ));
            assert(buffers.push(
                ScratchView::Kept(phase_key(g, w_name@, p as int), weights as int),
            ) =~= phase_buffers(g, w_name@, part as int, weights as int, p + 1));
        }
        p += 1;
        if col + 1 == d.kw {
            proof {
                assert((row + 1) * d.kw == row * d.kw + d.kw) by (nonlinear_arith);
                assert(row + 1 <= p) by (nonlinear_arith)
                    requires
                        p == (row + 1) * d.kw,
                        d.kw >= 1,
                ;
            }
            row += 1;
            col = 0;
        } else {
            col += 1;
        }
    }
    scratch
}

/// Plans a transposed convolution as one matrix product for each place of the kernel.
pub fn conv_transpose_phase_gemm(g: ConvGeom, has_bias: bool, w_name: &str, tile: u32) -> (r: Result<
    Plan,
>)
    requires
        tile > 0,
    ensures
        planned(r, phase_plan_of(g@, has_bias, w_name@, tile)),
{
    let ghost v = g@;
    let d: PhaseDims = match phase_dims(&g) {
        Some(d) => d,
        None => {
            return Err(backend_error("the products are too large"));
        },
    };
    let out: Produced = match output(FLOAT, g.out_shape, g.total) {
        Ok(p) => p,
        Err(e) => {
            return Err(e);
        },
    };
    let part: u64 = match buffer_bytes(FLOAT, d.part) {
        Ok(b) => b,
        Err(e) => {
            return Err(e);
        },
    };
    let weights: u64 = match buffer_bytes(FLOAT, d.weights) {
        Ok(b) => b,
        Err(e) => {
            return Err(e);
        },
    };
    let mut commands: Vec<Command> = Vec::new();
    if d.sh > d.kh || d.sw > d.kw {
        let slots: Vec<Slot> = vec![bias_of(has_bias), Slot::Output(0)];
        let push: Vec<u32> = vec![size_word(d.whole), size_word(d.plane), flag(has_bias)];
        assert(slots@ =~= seq![bias_slot(has_bias), Slot::Output(0)]);
        assert(push@ =~= seq![
            w32(v.c_out * (v.h_out * v.w_out)),
            w32(v.h_out * v.w_out),
            flag_of(has_bias),
        ]);
        commands.push(
            run(Kernel::ConvTransposeFill, slots, push, groups(size_word(d.whole), 256), 1, 1),
        );
    }
    assert(commands@.map_values(|c: Command| c@) =~= fill_commands(v, has_bias));
    let scratch = phase_parts(&d, has_bias, w_name, tile, part, weights, &mut commands, Ghost(v));
    let plan = assembled(vec![out], scratch, commands);
    assert(plan@.outputs =~= seq![out@]);
    Ok(plan)
}

/// The plan of a transposed convolution: matrix products for each place of the kernel where
/// `phases` gives the name of the constant weights and the size of the tile, otherwise one
/// invocation for each output element.
pub open spec fn conv_transpose_plan_of(
    g: GeomView,
    has_bias: bool,
    phases: Option<(Seq<char>, u32)>,
) -> Option<PlanView> {
    if g.total > 0 && phases is Some {
        phase_plan_of(g, has_bias, phases->Some_0.0, phases->Some_0.1)
    } else {
        match output_of(FLOAT, g.out_shape, g.total) {
            None => None,
            Some(out) => Some(
                one_output(
                    out,
                    if g.total == 0 {
                        Seq::empty()
                    } else {
                        seq![
                            run_of(
                                Kernel::ConvTranspose,
                                seq![
                                    Slot::Input(0),
                                    Slot::Input(1),
                                    bias_slot(has_bias),
                                    Slot::Output(0),
                                ],
                                g.common_words().push(flag_of(has_bias)),
                                ceil_div(w32(g.total) as int, 256),
                                1,
                                1,
                            ),
                        ]
                    },
                ),
            ),
        }
    }
}

/// Plans a transposed convolution.
pub fn conv_transpose(g: ConvGeom, has_bias: bool, phases: Option<(&str, u32)>) -> (r: Result<Plan>)
    requires
        phases matches Some(p) ==> p.1 > 0,
    ensures
        planned(
            r,
            conv_transpose_plan_of(
                g@,
                has_bias,
                match phases {
                    Some((name, tile)) => Some((name@, tile)),
                    None => None,
                },
            ),
        ),
{
    if g.total > 0 {
        match phases {
            Some((name, tile)) => {
                return conv_transpose_phase_gemm(g, has_bias, name, tile);
            },
            None => {},
        }
    }
    let mut push: Vec<u32> = g.push_common();
    push.push(flag(has_bias));
    let total: usize = g.total;
    let out: Produced = match output(FLOAT, g.out_shape, total) {
        Ok(p) => p,
        Err(e) => {
            return Err(e);
        },
    };
    if total == 0 {
        return Ok(simple(out, None));
    }
    let bias: Slot = bias_of(has_bias);
    let slots: Vec<Slot> = vec![Slot::Input(0), Slot::Input(1), bias, Slot::Output(0)];
    assert(slots@ =~= seq![Slot::Input(0), Slot::Input(1), bias, Slot::Output(0)]);
    Ok(
        simple(
            out,
            Some(run(Kernel::ConvTranspose, slots, push, groups(size_word(total), 256), 1, 1)),
        ),
    )
}

/// More elements than can be addressed have no buffer.
pub proof fn lemma_too_many(n: int)
    requires
        n > usize::MAX,
    ensures
        device_bytes(FLOAT, n) is Err,
        device_bytes(INT32, n) is Err,
{
}

} // verus!
