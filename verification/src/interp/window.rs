//! Sliding windows: the geometry of convolutions and pooling.
//!
//! One spatial dimension is treated as two, of which the second has size one.

use crate::error::{backend_error, Kind, Result};
use crate::graph::NodeIr;
use crate::host_ops::arith::{law_quotient_remainder, quotient};
use crate::num::{divide_wide, ceil_div, in_range, narrowed, volume, volume_of, w32, word, size_word};
use crate::text;
use vstd::prelude::*;

verus! {

// --- attributes -------------------------------------------------------------------------

/// `n` times `v`.
pub open spec fn repeated(v: i64, n: int) -> Seq<i64> {
    Seq::new(n as nat, |i: int| v)
}

pub fn repeat(v: i64, n: usize) -> (r: Vec<i64>)
    ensures
        r@ == repeated(v, n as int),
{
    let mut r: Vec<i64> = Vec::new();
    let mut i: usize = 0;
    while i < n
        invariant
            i <= n,
            r@ == repeated(v, i as int),
        decreases n - i,
    {
        r.push(v);
        i += 1;
        assert(r@ =~= repeated(v, i as int));
    }
    r
}

pub open spec fn ints_or(v: Option<Seq<i64>>, default: Seq<i64>) -> Seq<i64> {
    match v {
        Some(s) => s,
        None => default,
    }
}

/// A copy of part of a list.
pub fn section(v: &[i64], from: usize, to: usize) -> (r: Vec<i64>)
    requires
        from <= to <= v@.len(),
    ensures
        r@ == v@.subrange(from as int, to as int),
{
    let mut r: Vec<i64> = Vec::new();
    let mut i: usize = from;
    while i < to
        invariant
            from <= i <= to,
            to <= v@.len(),
            r@ == v@.subrange(from as int, i as int),
        decreases to - i,
    {
        r.push(v[i]);
        i += 1;
        assert(r@ =~= v@.subrange(from as int, i as int));
    }
    r
}

/// The list, or `n` times `v`.
pub fn or_repeat(list: Option<Vec<i64>>, v: i64, n: usize) -> (r: Vec<i64>)
    ensures
        r@ == ints_or(optional(list), repeated(v, n as int)),
{
    match list {
        Some(s) => s,
        None => repeat(v, n),
    }
}

pub open spec fn optional(v: Option<Vec<i64>>) -> Option<Seq<i64>> {
    match v {
        Some(s) => Some(s@),
        None => None,
    }
}

/// The attribute `name` as a list of integers.
pub fn ints_of_attr(node: &NodeIr, name: &str) -> (r: Option<Vec<i64>>)
    ensures
        optional(r) == node.ints_attr(name@),
{
    match node.attr_ints(name) {
        Some(s) => {
            let c = section(s, 0, s.len());
            assert(c@ =~= s@);
            Some(c)
        },
        None => None,
    }
}

/// The attributes that describe a window.
pub struct WindowAttrs {
    pub kernel: Option<Vec<i64>>,
    pub strides: Option<Vec<i64>>,
    pub dilations: Option<Vec<i64>>,
    pub pads: Option<Vec<i64>>,
    pub auto_pad: String,
    pub group: i64,
}

#[verifier::ext_equal]
pub struct AttrsView {
    pub kernel: Option<Seq<i64>>,
    pub strides: Option<Seq<i64>>,
    pub dilations: Option<Seq<i64>>,
    pub pads: Option<Seq<i64>>,
    pub auto_pad: Seq<char>,
    pub group: i64,
}

impl View for WindowAttrs {
    type V = AttrsView;

    open spec fn view(&self) -> AttrsView {
        AttrsView {
            kernel: optional(self.kernel),
            strides: optional(self.strides),
            dilations: optional(self.dilations),
            pads: optional(self.pads),
            auto_pad: self.auto_pad@,
            group: self.group,
        }
    }
}

/// The attributes of a node that describe its window.
pub open spec fn attrs_of(node: NodeIr) -> AttrsView {
    AttrsView {
        kernel: node.ints_attr("kernel_shape"@),
        strides: node.ints_attr("strides"@),
        dilations: node.ints_attr("dilations"@),
        pads: node.ints_attr("pads"@),
        auto_pad: node.str_attr("auto_pad"@, "NOTSET"@),
        group: node.int_attr("group"@, 1),
    }
}

pub fn window_attrs(node: &NodeIr) -> (r: WindowAttrs)
    ensures
        r@ == attrs_of(*node),
{
    WindowAttrs {
        kernel: ints_of_attr(node, "kernel_shape"),
        strides: ints_of_attr(node, "strides"),
        dilations: ints_of_attr(node, "dilations"),
        pads: ints_of_attr(node, "pads"),
        auto_pad: text::owned(node.attr_str("auto_pad", "NOTSET")),
        group: node.attr_i64("group", 1),
    }
}

// --- padding ----------------------------------------------------------------------------

/// The padding along one dimension under which the output has `in_dim / stride` elements,
/// rounded up.
pub open spec fn same_padding(in_dim: int, k: int, stride: int, dil: int) -> int {
    let out = quotient(in_dim + stride - 1, stride);
    let needed = (out - 1) * stride + (k - 1) * dil + 1 - in_dim;
    if needed < 0 {
        0
    } else {
        needed
    }
}

/// That padding at the beginning and at the end: the odd element goes to the end (`upper`) or
/// to the beginning.
pub open spec fn same_split(upper: bool, needed: int) -> (int, int) {
    let half = needed / 2;
    if upper {
        (half, needed - half)
    } else {
        (needed - half, half)
    }
}

pub proof fn lemma_wide(a: i64, b: i64)
    ensures
        -0x4000_0000_0000_0000_8000_0000_0000_0000 <= (a as int) * (b as int - 1)
            <= 0x4000_0000_0000_0000_8000_0000_0000_0000,
        (a as int) * (b as int - 1) == (b as int - 1) * (a as int),
{
    let x = a as int;
    let y = b as int - 1;
    assert(-0x4000_0000_0000_0000_8000_0000_0000_0000 <= x * y
        <= 0x4000_0000_0000_0000_8000_0000_0000_0000) by (nonlinear_arith)
        requires
            -0x8000_0000_0000_0000 <= x <= 0x8000_0000_0000_0000,
            -0x8000_0000_0000_0001 <= y <= 0x8000_0000_0000_0001,
    ;
    assert(x * y == y * x) by (nonlinear_arith);
}

/// The padding at the beginning and the end of a dimension under which the output is as large
/// as the input divided by the stride; nothing where there is no such padding.
pub fn same_pads(upper: bool, in_dim: i64, k: i64, stride: i64, dil: i64) -> (r: Option<(i64, i64)>)
    ensures
        match r {
            Some((b, e)) => {
                &&& stride != 0
                &&& in_range(same_padding(in_dim as int, k as int, stride as int, dil as int))
                &&& (b as int, e as int) == same_split(
                    upper,
                    same_padding(in_dim as int, k as int, stride as int, dil as int),
                )
            },
            None => stride == 0 || !in_range(
                same_padding(in_dim as int, k as int, stride as int, dil as int),
            ),
        },
{
    if stride == 0 {
        return None;
    }
    let x: i128 = in_dim as i128 + stride as i128 - 1;
    let out: i128 = divide_wide(x, stride);
    proof {
        law_quotient_remainder(x as int, stride as int);
        let (o, s) = (out as int, stride as int);
        assert((o - 1) * s == o * s - s) by (nonlinear_arith);
        lemma_wide(dil, k);
    }
    let covered: i128 = out * (stride as i128) - stride as i128;
    let reach: i128 = (k as i128 - 1) * (dil as i128);
    let needed: i128 = covered + reach + 1 - in_dim as i128;
    let total: i128 = if needed < 0 {
        0
    } else {
        needed
    };
    match narrowed(total) {
        None => None,
        Some(t) => {
            let half: i64 = t / 2;
            if upper {
                Some((half, t - half))
            } else {
                Some((t - half, half))
            }
        },
    }
}

/// Kernel size, strides, dilations and padding of a window over one or two dimensions.
pub struct Window {
    pub kernel: Vec<i64>,
    pub strides: Vec<i64>,
    pub dilations: Vec<i64>,
    /// The padding at the beginning of each dimension, then at the end of each.
    pub pads: Vec<i64>,
}

#[verifier::ext_equal]
pub struct WindowView {
    pub kernel: Seq<i64>,
    pub strides: Seq<i64>,
    pub dilations: Seq<i64>,
    pub pads: Seq<i64>,
}

impl View for Window {
    type V = WindowView;

    open spec fn view(&self) -> WindowView {
        WindowView {
            kernel: self.kernel@,
            strides: self.strides@,
            dilations: self.dilations@,
            pads: self.pads@,
        }
    }
}

/// The padding that makes dimension `d` of the output as large as the input divided by the
/// stride.
pub open spec fn same_at(x: Seq<i64>, w: WindowView, d: int) -> int {
    same_padding(
        x[2 + d] as int,
        w.kernel[d] as int,
        w.strides[d] as int,
        w.dilations[d] as int,
    )
}

pub open spec fn same_possible(x: Seq<i64>, w: WindowView, d: int) -> bool {
    w.strides[d] != 0 && in_range(same_at(x, w, d))
}

/// The padding of all dimensions under `SAME_UPPER` or `SAME_LOWER`.
pub open spec fn same_all(upper: bool, x: Seq<i64>, w: WindowView) -> Seq<i64> {
    let s = w.strides.len();
    Seq::new(
        2 * s,
        |i: int|
            if i < s {
                same_split(upper, same_at(x, w, i)).0 as i64
            } else {
                same_split(upper, same_at(x, w, i - s)).1 as i64
            },
    )
}

/// The window that the attributes describe, with the padding that `auto_pad` asks for.
pub open spec fn window_of(a: AttrsView, x: Seq<i64>, kernel: Seq<i64>) -> Option<WindowView> {
    let s = x.len() - 2;
    let w = WindowView {
        kernel: ints_or(a.kernel, kernel),
        strides: ints_or(a.strides, repeated(1, s)),
        dilations: ints_or(a.dilations, repeated(1, s)),
        pads: ints_or(a.pads, repeated(0, 2 * s)),
    };
    let mode = a.auto_pad;
    if s != 1 && s != 2 {
        None
    } else if w.kernel.len() != s || w.strides.len() != s || w.dilations.len() != s
        || w.pads.len() != 2 * s {
        None
    } else if mode == "NOTSET"@ {
        Some(w)
    } else if mode == "VALID"@ {
        Some(WindowView { pads: repeated(0, 2 * s), ..w })
    } else if mode == "SAME_UPPER"@ || mode == "SAME_LOWER"@ {
        if forall|d: int| 0 <= d < s ==> #[trigger] same_possible(x, w, d) {
            Some(WindowView { pads: same_all(mode == "SAME_UPPER"@, x, w), ..w })
        } else {
            None
        }
    } else {
        None
    }
}

/// The padding of all dimensions under `SAME_UPPER` or `SAME_LOWER`, where there is one.
fn pads_for_same(upper: bool, x_shape: &[i64], w: &Window) -> (r: Option<Vec<i64>>)
    requires
        x_shape@.len() == w.strides@.len() + 2,
        w.kernel@.len() == w.strides@.len(),
        w.dilations@.len() == w.strides@.len(),
    ensures
        match r {
            Some(p) => {
                &&& p@ == same_all(upper, x_shape@, w@)
                &&& forall|d: int|
                    0 <= d < w.strides@.len() ==> #[trigger] same_possible(x_shape@, w@, d)
            },
            None => !(forall|d: int|
                0 <= d < w.strides@.len() ==> #[trigger] same_possible(x_shape@, w@, d)),
        },
{
    let s: usize = w.strides.len();
    let rank: usize = x_shape.len();
    let ghost was = w@;
    let mut begins: Vec<i64> = Vec::new();
    let mut ends: Vec<i64> = Vec::new();
    let mut d: usize = 0;
    while d < s
        invariant
            d <= s,
            rank == s + 2,
            x_shape@.len() == rank,
            w@ == was,
            was.kernel.len() == s,
            was.strides.len() == s,
            was.dilations.len() == s,
            begins@.len() == d,
            ends@.len() == d,
            forall|i: int| 0 <= i < d ==> #[trigger] same_possible(x_shape@, was, i),
            forall|i: int|
                0 <= i < d ==> #[trigger] begins@[i] == same_split(
                    upper,
                    same_at(x_shape@, was, i),
                ).0,
            forall|i: int|
                0 <= i < d ==> #[trigger] ends@[i] == same_split(
                    upper,
                    same_at(x_shape@, was, i),
                ).1,
        decreases s - d,
    {
        match same_pads(upper, x_shape[2 + d], w.kernel[d], w.strides[d], w.dilations[d]) {
            Some((b, e)) => {
                begins.push(b);
                ends.push(e);
            },
            None => {
                assert(!same_possible(x_shape@, was, d as int));
                return None;
            },
        }
        d += 1;
    }
    begins.append(&mut ends);
    assert(begins@ =~= same_all(upper, x_shape@, was));
    Some(begins)
}

/// The window that the attributes describe; `kernel` is the kernel size where no attribute
/// gives it.
pub fn window(a: WindowAttrs, x_shape: &[i64], kernel: Vec<i64>) -> (r: Result<Window>)
    ensures
        match (r, window_of(a@, x_shape@, kernel@)) {
            (Ok(w), Some(v)) => w@ == v,
            (Err(e), None) => e.kind() == Kind::Backend,
            _ => false,
        },
{
    let rank: usize = x_shape.len();
    if rank != 3 && rank != 4 {
        return Err(backend_error("only one or two spatial dimensions"));
    }
    let s: usize = rank - 2;
    let kernel: Vec<i64> = match a.kernel {
        Some(k) => k,
        None => kernel,
    };
    let strides: Vec<i64> = or_repeat(a.strides, 1, s);
    let dilations: Vec<i64> = or_repeat(a.dilations, 1, s);
    let pads: Vec<i64> = or_repeat(a.pads, 0, 2 * s);
    let w = Window { kernel, strides, dilations, pads };
    if w.kernel.len() != s || w.strides.len() != s || w.dilations.len() != s || w.pads.len() != 2
        * s {
        return Err(backend_error("the attributes do not suit the number of dimensions"));
    }
    let mode = a.auto_pad.as_str();
    if text::same(mode, "NOTSET") {
        return Ok(w);
    }
    let mut w = w;
    if text::same(mode, "VALID") {
        w.pads = repeat(0, 2 * s);
        return Ok(w);
    }
    let upper: bool = text::same(mode, "SAME_UPPER");
    if !upper && !text::same(mode, "SAME_LOWER") {
        return Err(backend_error("this automatic padding is not supported"));
    }
    match pads_for_same(upper, x_shape, &w) {
        Some(p) => {
            w.pads = p;
            Ok(w)
        },
        None => Err(backend_error("no padding keeps the size")),
    }
}

// --- geometry ---------------------------------------------------------------------------

/// The sizes of a convolution or a pooling, reduced to two spatial dimensions.
#[derive(Debug, PartialEq)]
pub struct ConvGeom {
    pub n: i64,
    pub c_in: i64,
    pub c_out: i64,
    pub group: i64,
    /// Channels of one group, on the side that the weights list second.
    pub gsi: i64,
    pub h_in: i64,
    pub w_in: i64,
    pub h_out: i64,
    pub w_out: i64,
    pub kh: i64,
    pub kw: i64,
    pub sh: i64,
    pub sw: i64,
    pub dh: i64,
    pub dw: i64,
    pub phb: i64,
    pub phe: i64,
    pub pwb: i64,
    pub pwe: i64,
    pub out_shape: Vec<i64>,
    /// The number of output elements.
    pub total: usize,
}

#[verifier::ext_equal]
pub struct GeomView {
    pub n: int,
    pub c_in: int,
    pub c_out: int,
    pub group: int,
    pub gsi: int,
    pub h_in: int,
    pub w_in: int,
    pub h_out: int,
    pub w_out: int,
    pub kh: int,
    pub kw: int,
    pub sh: int,
    pub sw: int,
    pub dh: int,
    pub dw: int,
    pub phb: int,
    pub phe: int,
    pub pwb: int,
    pub pwe: int,
    pub out_shape: Seq<i64>,
    pub total: int,
}

impl View for ConvGeom {
    type V = GeomView;

    open spec fn view(&self) -> GeomView {
        GeomView {
            n: self.n as int,
            c_in: self.c_in as int,
            c_out: self.c_out as int,
            group: self.group as int,
            gsi: self.gsi as int,
            h_in: self.h_in as int,
            w_in: self.w_in as int,
            h_out: self.h_out as int,
            w_out: self.w_out as int,
            kh: self.kh as int,
            kw: self.kw as int,
            sh: self.sh as int,
            sw: self.sw as int,
            dh: self.dh as int,
            dw: self.dw as int,
            phb: self.phb as int,
            phe: self.phe as int,
            pwb: self.pwb as int,
            pwe: self.pwe as int,
            out_shape: self.out_shape@,
            total: self.total as int,
        }
    }
}

impl GeomView {
    /// The parameters that the kernels share, in the order in which they read them.
    pub open spec fn common_words(self) -> Seq<u32> {
        seq![
            w32(self.total),
            w32(self.c_in),
            w32(self.c_out),
            w32(self.group),
            w32(self.h_in),
            w32(self.w_in),
            w32(self.h_out),
            w32(self.w_out),
            w32(self.kh),
            w32(self.kw),
            w32(self.sh),
            w32(self.sw),
            w32(self.phb),
            w32(self.pwb),
            w32(self.dh),
            w32(self.dw),
            w32(self.gsi),
        ]
    }
}

impl ConvGeom {
    /// The parameters that the kernels share.
    pub fn push_common(&self) -> (r: Vec<u32>)
        ensures
            r@ == self@.common_words(),
    {
        let r: Vec<u32> = vec![
            size_word(self.total),
            word(self.c_in),
            word(self.c_out),
            word(self.group),
            word(self.h_in),
            word(self.w_in),
            word(self.h_out),
            word(self.w_out),
            word(self.kh),
            word(self.kw),
            word(self.sh),
            word(self.sw),
            word(self.phb),
            word(self.pwb),
            word(self.dh),
            word(self.dw),
            word(self.gsi),
        ];
        assert(r@ =~= self@.common_words());
        r
    }
}

/// The number of places of a window of `k` elements, `d` apart, that moves by `s` over `in_dim`
/// elements with padding `b` and `e`.
pub open spec fn extent(in_dim: int, b: int, e: int, k: int, s: int, d: int) -> int {
    quotient(in_dim + b + e - (d * (k - 1) + 1), s) + 1
}

/// **`SAME` keeps the size**: with the padding of `SAME_UPPER` or `SAME_LOWER` a window gives one
/// output for each stride of the input, the last one counted where it is cut short.
pub proof fn law_same_keeps_size(in_dim: int, k: int, stride: int, dil: int, upper: bool)
    requires
        in_dim >= 1,
        k >= 1,
        stride >= 1,
        dil >= 1,
    ensures
        extent(
            in_dim,
            same_split(upper, same_padding(in_dim, k, stride, dil)).0,
            same_split(upper, same_padding(in_dim, k, stride, dil)).1,
            k,
            stride,
            dil,
        ) == ceil_div(in_dim, stride),
{
    let out = ceil_div(in_dim, stride);
    let reach = dil * (k - 1) + 1;
    assert((k - 1) * dil == dil * (k - 1)) by (nonlinear_arith);
    assert(out >= 1 && (out - 1) * stride < in_dim <= out * stride) by (nonlinear_arith)
        requires
            in_dim >= 1,
            stride >= 1,
            out == (in_dim + stride - 1) / stride,
    ;
    assert(reach >= 1) by (nonlinear_arith)
        requires
            reach == dil * (k - 1) + 1,
            dil >= 1,
            k >= 1,
    ;
    assert((out - 1) * stride >= 0) by (nonlinear_arith)
        requires
            out >= 1,
            stride >= 1,
    ;
    let needed = (out - 1) * stride + reach - in_dim;
    if needed >= 0 {
        assert(((out - 1) * stride) / stride == out - 1) by (nonlinear_arith)
            requires
                stride >= 1,
        ;
    } else {
        let rest = in_dim - reach;
        assert(rest / stride == out - 1) by (nonlinear_arith)
            requires
                (out - 1) * stride < rest < out * stride,
                stride >= 1,
        ;
    }
}

fn extent_of(in_dim: i64, b: i64, e: i64, k: i64, s: i64, d: i64) -> (r: Option<i64>)
    ensures
        match r {
            Some(v) => s != 0 && v == extent(
                in_dim as int,
                b as int,
                e as int,
                k as int,
                s as int,
                d as int,
            ),
            None => s == 0 || !in_range(
                extent(in_dim as int, b as int, e as int, k as int, s as int, d as int),
            ),
        },
{
    if s == 0 {
        return None;
    }
    proof {
        lemma_wide(d, k);
    }
    let reach: i128 = (d as i128) * (k as i128 - 1) + 1;
    let room: i128 = in_dim as i128 + b as i128 + e as i128 - reach;
    narrowed(divide_wide(room, s) + 1)
}

/// Dimension `d` of a list of two, where a list of one is followed by `default`.
pub open spec fn axis_value(v: Seq<i64>, d: int, default: i64) -> int {
    if d < v.len() {
        v[d] as int
    } else {
        default as int
    }
}

/// The geometry of a convolution: input `x`, weights `w` (output channels, input channels of
/// a group, kernel).
pub open spec fn geometry_of(attrs: AttrsView, x: Seq<i64>, w: Seq<i64>) -> Option<GeomView> {
    if w.len() < 2 {
        None
    } else {
        match window_of(attrs, x, w.skip(2)) {
            None => None,
            Some(a) => {
                let s = x.len() - 2;
                let (h_in, w_in) = (x[2] as int, axis_value(x, 3, 1));
                let (kh, kw) = (a.kernel[0] as int, axis_value(a.kernel, 1, 1));
                let (sh, sw) = (a.strides[0] as int, axis_value(a.strides, 1, 1));
                let (dh, dw) = (a.dilations[0] as int, axis_value(a.dilations, 1, 1));
                let (phb, phe) = (a.pads[0] as int, a.pads[s] as int);
                let (pwb, pwe) = if s == 1 {
                    (0, 0)
                } else {
                    (a.pads[1] as int, a.pads[3] as int)
                };
                let h_out = extent(h_in, phb, phe, kh, sh, dh);
                let w_out = extent(w_in, pwb, pwe, kw, sw, dw);
                let out = seq![x[0], w[0], h_out as i64, w_out as i64];
                if sh == 0 || sw == 0 || !in_range(h_out) || !in_range(w_out) || h_out <= 0 || w_out
                    <= 0 {
                    None
                } else {
                    match volume_of(out) {
                        None => None,
                        Some(total) => Some(
                            GeomView {
                                n: x[0] as int,
                                c_in: x[1] as int,
                                c_out: w[0] as int,
                                group: attrs.group as int,
                                gsi: w[1] as int,
                                h_in,
                                w_in,
                                h_out,
                                w_out,
                                kh,
                                kw,
                                sh,
                                sw,
                                dh,
                                dw,
                                phb,
                                phe,
                                pwb,
                                pwe,
                                out_shape: out.take(s + 2),
                                total,
                            },
                        ),
                    }
                }
            },
        }
    }
}

/// Attributes and output shape of a convolution, with the padding that `auto_pad` asks for.
pub fn conv_geometry(attrs: WindowAttrs, x_shape: &[i64], w_shape: &[i64]) -> (r: Result<ConvGeom>)
    ensures
        match (r, geometry_of(attrs@, x_shape@, w_shape@)) {
            (Ok(g), Some(v)) => g@ == v,
            (Err(e), None) => e.kind() == Kind::Backend,
            _ => false,
        },
{
    let wr: usize = w_shape.len();
    if wr < 2 {
        return Err(backend_error("the weights have no channels"));
    }
    let kernel = section(w_shape, 2, wr);
    assert(kernel@ =~= w_shape@.skip(2));
    let group: i64 = attrs.group;
    let a = match window(attrs, x_shape, kernel) {
        Ok(a) => a,
        Err(e) => {
            return Err(e);
        },
    };
    let one: bool = x_shape.len() == 3;
    let (h_in, w_in): (i64, i64) = if one {
        (x_shape[2], 1)
    } else {
        (x_shape[2], x_shape[3])
    };
    let (kh, kw): (i64, i64) = if one {
        (a.kernel[0], 1)
    } else {
        (a.kernel[0], a.kernel[1])
    };
    let (sh, sw): (i64, i64) = if one {
        (a.strides[0], 1)
    } else {
        (a.strides[0], a.strides[1])
    };
    let (dh, dw): (i64, i64) = if one {
        (a.dilations[0], 1)
    } else {
        (a.dilations[0], a.dilations[1])
    };
    let (phb, phe, pwb, pwe): (i64, i64, i64, i64) = if one {
        (a.pads[0], a.pads[1], 0, 0)
    } else {
        (a.pads[0], a.pads[2], a.pads[1], a.pads[3])
    };
    let h_out: i64 = match extent_of(h_in, phb, phe, kh, sh, dh) {
        Some(v) => v,
        None => {
            return Err(backend_error("the window does not move"));
        },
    };
    let w_out: i64 = match extent_of(w_in, pwb, pwe, kw, sw, dw) {
        Some(v) => v,
        None => {
            return Err(backend_error("the window does not move"));
        },
    };
    if h_out <= 0 || w_out <= 0 {
        return Err(backend_error("the output is empty"));
    }
    let (n, c_in, c_out, gsi): (i64, i64, i64, i64) = (
        x_shape[0],
        x_shape[1],
        w_shape[0],
        w_shape[1],
    );
    let full: Vec<i64> = vec![n, c_out, h_out, w_out];
    assert(full@ =~= seq![n, c_out, h_out, w_out]);
    let total: usize = match volume(full.as_slice()) {
        Some(t) => t,
        None => {
            return Err(backend_error("the output is too large"));
        },
    };
    let out_shape: Vec<i64> = if one {
        vec![n, c_out, h_out]
    } else {
        full
    };
    let g = ConvGeom {
        n,
        c_in,
        c_out,
        group,
        gsi,
        h_in,
        w_in,
        h_out,
        w_out,
        kh,
        kw,
        sh,
        sw,
        dh,
        dw,
        phb,
        phe,
        pwb,
        pwe,
        out_shape,
        total,
    };
    assert(g@.out_shape =~= seq![n, c_out, h_out, w_out].take(x_shape@.len() as int));
    Ok(g)
}

} // verus!
