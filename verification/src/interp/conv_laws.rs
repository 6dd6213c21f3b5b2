//! What convolutions are started with, and what their geometry means.

use crate::graph::NodeIr;
use crate::host_ops::arith::{law_quotient_remainder, quotient};
use crate::host_ops::{FLOAT, INT32};
use crate::interp::conv::{
    conv_plan_of, conv_transpose_plan_of, fill_commands, grown, interleave_command, pack_command,
    phase_buffers, phase_commands, phase_geom_of, phase_key, phase_product, product_size_of,
    transposed_of, ConvTuning,
};
use crate::interp::int_product::{conv_integer_of, is_pointwise, IntOperands, IntTuning};
use crate::interp::launch::{fresh_words, lemma_fresh, lemma_reach, reach_all, told, told_whether};
use crate::interp::window::{
    attrs_of, extent, geometry_of, ints_or, law_same_keeps_size, repeated, same_padding,
    same_possible, same_split, window_of, AttrsView, GeomView, WindowView,
};
use crate::num::{ceil_div, in_range};
use crate::plan::{CommandView, DispatchView, Kernel, PlanView, ScratchView, Slot};
use crate::shape::product;
use vstd::prelude::*;

verus! {

// --- what a kernel is told --------------------------------------------------------------

/// Whether a kernel is told of the geometry: output elements, channels and groups, the sizes of
/// input, output and window, then strides, padding at the beginning, dilations, and the channels
/// of a group.
pub open spec fn told_geometry(push: Seq<u32>, g: GeomView) -> bool {
    &&& told(push, 0, g.total)
    &&& told(push, 1, g.c_in)
    &&& told(push, 2, g.c_out)
    &&& told(push, 3, g.group)
    &&& told(push, 4, g.h_in)
    &&& told(push, 5, g.w_in)
    &&& told(push, 6, g.h_out)
    &&& told(push, 7, g.w_out)
    &&& told(push, 8, g.kh)
    &&& told(push, 9, g.kw)
    &&& told(push, 10, g.sh)
    &&& told(push, 11, g.sw)
    &&& told(push, 12, g.phb)
    &&& told(push, 13, g.pwb)
    &&& told(push, 14, g.dh)
    &&& told(push, 15, g.dw)
    &&& told(push, 16, g.gsi)
}

/// Whether the third input is among the buffers exactly where the node has one; otherwise the
/// shared zero stands in its place.
pub open spec fn takes_bias(d: DispatchView, i: int, has_bias: bool) -> bool {
    0 <= i < d.slots.len() && if has_bias {
        d.slots[i] == Slot::Input(2)
    } else {
        d.slots[i] == Slot::Zero
    }
}

/// Whether the work groups reach all the output: tiles of pixels and channels for every image and
/// slice where there is one group of channels, otherwise 256 elements each.
pub open spec fn conv_reaches(d: DispatchView, g: GeomView, tile: int, slices: int) -> bool {
    if g.group == 1 {
        &&& reach_all(d.grid.x, tile, g.h_out * g.w_out)
        &&& reach_all(d.grid.y, tile, g.c_out)
        &&& 1 <= g.n <= u32::MAX ==> d.grid.z == g.n * slices
    } else {
        reach_all(d.grid.x, 256, g.total) && d.grid.y == 1 && d.grid.z == 1
    }
}

/// **A convolution multiplies the input by the weights and adds the bias**: the kernel that starts
/// takes both operands in this order, the one that writes the output takes the bias wherever there
/// is one, whatever the number of groups, and each is told of the whole geometry. Only the kernel
/// for groups runs where there are several; partial images are added up where the depth is cut.
pub proof fn law_conv_is_started(g: GeomView, has_bias: bool, t: ConvTuning, p: PlanView)
    requires
        conv_plan_of(g, has_bias, t) == Some(p),
        g.total > 0,
        t.tile > 0,
        t.blocked_tile > 0,
    ensures
        p.outputs.len() == 1,
        fresh_words(p.outputs[0], FLOAT, g.out_shape, g.total),
        p.commands.len() >= 1,
        p.commands[0] is Run,
        p.commands.last() is Run,
        ({
            let first = p.commands[0]->Run_0;
            let last = p.commands.last()->Run_0;
            let cut = g.group == 1 && t.split is Some;
            let slices = if cut {
                t.split->Some_0 as int
            } else {
                1
            };
            &&& first.slots.len() == 4
            &&& first.slots[0] == Slot::Input(0)
            &&& first.slots[1] == Slot::Input(1)
            &&& takes_bias(first, 2, has_bias)
            &&& takes_bias(last, last.slots.len() - 2, has_bias)
            &&& last.slots.last() == Slot::Output(0)
            &&& first.push.len() == 19
            &&& last.push == first.push
            &&& told_geometry(first.push, g)
            &&& told_whether(first.push, 17, has_bias)
            &&& told(first.push, 18, slices)
            &&& conv_reaches(
                first,
                g,
                if cut || t.blocked {
                    t.blocked_tile as int
                } else {
                    t.tile as int
                },
                slices,
            )
            &&& (first.kernel == Kernel::ConvGrouped) == (g.group != 1)
            &&& cut ==> {
                &&& p.commands.len() == 2
                &&& first.kernel == Kernel::ConvSplit
                &&& first.slots[3] == Slot::Scratch(0)
                &&& last.kernel == Kernel::ConvSplitReduce
                &&& last.slots.len() == 3
                &&& last.slots[0] == Slot::Scratch(0)
                &&& reach_all(last.grid.x, 256, g.total)
                &&& last.grid.y == 1
                &&& last.grid.z == 1
                &&& p.scratch.len() == 1
                &&& p.scratch[0] matches ScratchView::Temporary(b) && b >= 4 * (slices * g.total)
            }
            &&& !cut ==> {
                &&& p.commands.len() == 1
                &&& p.scratch.len() == 0
                &&& g.group == 1 ==> first.kernel == if t.blocked {
                    Kernel::Conv
                } else {
                    Kernel::ConvSmall
                }
            }
        }),
{
    lemma_fresh(FLOAT, g.total);
    lemma_reach(g.total, 256);
    lemma_reach(g.h_out * g.w_out, t.tile as int);
    lemma_reach(g.h_out * g.w_out, t.blocked_tile as int);
    lemma_reach(g.c_out, t.tile as int);
    lemma_reach(g.c_out, t.blocked_tile as int);
    if g.group == 1 && t.split is Some {
        let n = t.split->Some_0 * g.total;
        assert(n >= 0) by (nonlinear_arith)
            requires
                n == t.split->Some_0 * g.total,
                g.total > 0,
        ;
        lemma_fresh(FLOAT, n);
    }
}

/// Nothing runs for a convolution without output elements.
pub proof fn law_empty_conv(g: GeomView, has_bias: bool, t: ConvTuning)
    requires
        g.total == 0,
        conv_plan_of(g, has_bias, t) is Some,
    ensures
        conv_plan_of(g, has_bias, t)->Some_0.commands.len() == 0,
        fresh_words(conv_plan_of(g, has_bias, t)->Some_0.outputs[0], FLOAT, g.out_shape, 0),
{
    lemma_fresh(FLOAT, 0);
}

/// **A transposed convolution that goes element by element** takes input, weights and bias in this
/// order, is told of the whole geometry, and reaches every output element.
pub proof fn law_conv_transpose_is_started(g: GeomView, has_bias: bool, p: PlanView)
    requires
        conv_transpose_plan_of(g, has_bias, None) == Some(p),
        g.total > 0,
    ensures
        p.outputs.len() == 1,
        fresh_words(p.outputs[0], FLOAT, g.out_shape, g.total),
        p.scratch.len() == 0,
        p.commands.len() == 1,
        p.commands[0] is Run,
        ({
            let d = p.commands[0]->Run_0;
            &&& d.kernel == Kernel::ConvTranspose
            &&& d.slots.len() == 4
            &&& d.slots[0] == Slot::Input(0)
            &&& d.slots[1] == Slot::Input(1)
            &&& takes_bias(d, 2, has_bias)
            &&& d.slots[3] == Slot::Output(0)
            &&& d.push.len() == 18
            &&& told_geometry(d.push, g)
            &&& told_whether(d.push, 17, has_bias)
            &&& reach_all(d.grid.x, 256, g.total)
            &&& d.grid.y == 1
            &&& d.grid.z == 1
        }),
{
    lemma_fresh(FLOAT, g.total);
    lemma_reach(g.total, 256);
}

/// **An integer convolution that is no matrix product** takes input, weights and their zero points
/// in this order, a zero standing for a zero point that is not there, is told of the geometry and
/// of both signs, and reaches every output element.
pub proof fn law_conv_integer_is_started(
    g: GeomView,
    o: IntOperands,
    w_name: Seq<char>,
    t: IntTuning,
    p: PlanView,
)
    requires
        conv_integer_of(g, o, w_name, t) == Some(p),
        g.total > 0,
        !is_pointwise(g),
    ensures
        p.outputs.len() == 1,
        fresh_words(p.outputs[0], INT32, g.out_shape, g.total),
        p.scratch.len() == 0,
        p.commands.len() == 1,
        p.commands[0] is Run,
        ({
            let d = p.commands[0]->Run_0;
            &&& d.kernel == Kernel::ConvInteger
            &&& d.slots.len() == 5
            &&& d.slots[0] == Slot::Input(0)
            &&& d.slots[1] == Slot::Input(1)
            &&& d.slots[2] == if o.x_zero {
                Slot::Input(2)
            } else {
                Slot::Zero
            }
            &&& d.slots[3] == if o.w_zero {
                Slot::Input(3)
            } else {
                Slot::Zero
            }
            &&& d.slots[4] == Slot::Output(0)
            &&& d.push.len() == 19
            &&& told_geometry(d.push, g)
            &&& told_whether(d.push, 17, o.x_signed)
            &&& told_whether(d.push, 18, o.w_signed)
            &&& reach_all(d.grid.x, 256, g.total)
            &&& d.grid.y == 1
            &&& d.grid.z == 1
        }),
{
    lemma_fresh(INT32, g.total);
    lemma_reach(g.total, 256);
}

/// A matrix product can stand for a convolution only where every output pixel is made from the
/// input pixel at its own place, of all channels.
pub proof fn law_pointwise_keeps_pixels(attrs: AttrsView, x: Seq<i64>, w: Seq<i64>, g: GeomView)
    requires
        geometry_of(attrs, x, w) == Some(g),
        is_pointwise(g),
    ensures
        g.h_out == g.h_in,
        g.w_out == g.w_in,
        g.group == 1,
        g.n == 1,
        g.c_in % 4 == 0,
        forall|i: int, k: int| 0 <= k < g.kh ==> #[trigger] window_place(i, k, g.sh, g.dh, g.phb) == i,
        forall|i: int, k: int| 0 <= k < g.kw ==> #[trigger] window_place(i, k, g.sw, g.dw, g.pwb) == i,
{
    law_quotient_remainder(g.h_in - 1, 1);
    law_quotient_remainder(g.w_in - 1, 1);
}

// --- geometry ---------------------------------------------------------------------------

/// Where element `k` of window number `i` lies in the input.
pub open spec fn window_place(i: int, k: int, s: int, d: int, b: int) -> int {
    i * s + k * d - b
}

/// **As many windows as fit**: the last of them ends within the padded input, and one more would
/// not.
pub proof fn law_windows_fit(in_dim: int, b: int, e: int, k: int, s: int, d: int)
    requires
        s >= 1,
        in_dim + b + e >= d * (k - 1) + 1,
    ensures
        ({
            let n = extent(in_dim, b, e, k, s, d);
            &&& n >= 1
            &&& window_place(n - 1, k - 1, s, d, b) < in_dim + e
            &&& window_place(n, k - 1, s, d, b) >= in_dim + e
        }),
{
    let room = in_dim + b + e - (d * (k - 1) + 1);
    law_quotient_remainder(room, s);
    let q = quotient(room, s);
    assert(q >= 0);
    assert((q + 1) * s == q * s + s) by (nonlinear_arith);
    assert(d * (k - 1) == (k - 1) * d) by (nonlinear_arith);
}

/// **The window is described by the attributes of its names.**
pub proof fn law_window_attributes(node: NodeIr)
    ensures
        attrs_of(node).kernel == node.ints_attr("kernel_shape"@),
        attrs_of(node).strides == node.ints_attr("strides"@),
        attrs_of(node).dilations == node.ints_attr("dilations"@),
        attrs_of(node).pads == node.ints_attr("pads"@),
        attrs_of(node).auto_pad == node.str_attr("auto_pad"@, "NOTSET"@),
        attrs_of(node).group == node.int_attr("group"@, 1),
{
}

/// Entry `i` of a list that an attribute gives, or `default` where there is no attribute.
pub open spec fn given_or(v: Option<Seq<i64>>, i: int, default: int) -> int {
    match v {
        Some(l) => l[i] as int,
        None => default,
    }
}

/// **The geometry of a convolution is that of its operands**: images and input channels are those
/// of the input, output channels those of the weights; the window has the size of the weights
/// unless an attribute gives another, moves by one unless `strides` says otherwise, and has
/// neighbouring elements unless `dilations` does; there are as many windows as fit in each
/// direction, and as many output elements as images, channels and windows make.
pub proof fn law_conv_geometry(attrs: AttrsView, x: Seq<i64>, w: Seq<i64>, g: GeomView)
    requires
        geometry_of(attrs, x, w) == Some(g),
    ensures
        x.len() == 3 || x.len() == 4,
        g.n == x[0],
        g.c_in == x[1],
        g.c_out == w[0],
        g.gsi == w[1],
        g.group == attrs.group,
        g.h_in == x[2],
        x.len() == 4 ==> g.w_in == x[3],
        x.len() == 3 ==> g.w_in == 1 && g.kw == 1 && g.sw == 1 && g.dw == 1 && g.pwb == 0 && g.pwe
            == 0 && g.w_out == 1,
        attrs.kernel is None ==> w.len() == x.len(),
        g.kh == given_or(attrs.kernel, 0, w[2] as int),
        x.len() == 4 ==> g.kw == given_or(attrs.kernel, 1, w[3] as int),
        g.sh == given_or(attrs.strides, 0, 1),
        x.len() == 4 ==> g.sw == given_or(attrs.strides, 1, 1),
        g.dh == given_or(attrs.dilations, 0, 1),
        x.len() == 4 ==> g.dw == given_or(attrs.dilations, 1, 1),
        g.out_shape.len() == x.len(),
        g.out_shape[0] == g.n,
        g.out_shape[1] == g.c_out,
        g.out_shape[2] == g.h_out,
        x.len() == 4 ==> g.out_shape[3] == g.w_out,
        g.h_out == extent(g.h_in, g.phb, g.phe, g.kh, g.sh, g.dh),
        g.w_out == extent(g.w_in, g.pwb, g.pwe, g.kw, g.sw, g.dw),
        g.h_out >= 1,
        g.w_out >= 1,
        g.n >= 0 && g.c_out >= 0 ==> g.total == g.n * g.c_out * g.h_out * g.w_out,
{
    let a = window_of(attrs, x, w.skip(2))->Some_0;
    let out = seq![x[0], w[0], g.h_out as i64, g.w_out as i64];
    lemma_product_of_four(out);
    if attrs.kernel is None {
        assert(w.skip(2).len() == x.len() - 2);
        assert(w.skip(2)[0] == w[2]);
        if x.len() == 4 {
            assert(w.skip(2)[1] == w[3]);
        }
    }
    let (n, c, h, v) = (g.n, g.c_out, g.h_out, g.w_out);
    if n >= 0 && c >= 0 {
        assert(n * c * h * v >= 0) by (nonlinear_arith)
            requires
                n >= 0,
                c >= 0,
                h >= 1,
                v >= 1,
        ;
    }
    if x.len() == 3 {
        law_quotient_remainder(0, 1);
    }
}

pub proof fn lemma_product_of_four(s: Seq<i64>)
    requires
        s.len() == 4,
    ensures
        product(s) == s[0] * s[1] * s[2] * s[3],
{
    let a = s.drop_last();
    let b = a.drop_last();
    let c = b.drop_last();
    assert(c.drop_last().len() == 0);
    assert(product(c.drop_last()) == 1);
    assert(product(c) == s[0]) by {
        assert(c.last() == s[0]);
        assert(1 * s[0] == s[0]);
    }
    assert(b.last() == s[1] && a.last() == s[2] && s.last() == s[3]);
    assert(product(b) == product(c) * s[1]);
    assert(product(a) == product(b) * s[2]);
    assert(product(s) == product(a) * s[3]);
}

/// **Padding is what the node says**: the amounts of `pads`, at the beginning of each dimension
/// and then at the end of each; none without it or with `VALID`; and with `SAME_UPPER` or
/// `SAME_LOWER` as much as gives one output for each stride.
pub proof fn law_conv_padding(attrs: AttrsView, x: Seq<i64>, w: Seq<i64>, g: GeomView)
    requires
        geometry_of(attrs, x, w) == Some(g),
    ensures
        ({
            let s = x.len() - 2;
            &&& attrs.auto_pad == "NOTSET"@ ==> {
                &&& g.phb == given_or(attrs.pads, 0, 0)
                &&& g.phe == given_or(attrs.pads, s, 0)
                &&& s == 2 ==> g.pwb == given_or(attrs.pads, 1, 0)
                &&& s == 2 ==> g.pwe == given_or(attrs.pads, 3, 0)
            }
            &&& attrs.auto_pad == "VALID"@ ==> g.phb == 0 && g.phe == 0 && g.pwb == 0 && g.pwe == 0
            &&& attrs.auto_pad == "SAME_UPPER"@ || attrs.auto_pad == "SAME_LOWER"@ ==> {
                &&& g.h_in >= 1 && g.kh >= 1 && g.sh >= 1 && g.dh >= 1 ==> {
                    &&& (g.h_out - 1) * g.sh < g.h_in <= g.h_out * g.sh
                    &&& attrs.auto_pad == "SAME_UPPER"@ ==> g.phb <= g.phe <= g.phb + 1
                    &&& attrs.auto_pad == "SAME_LOWER"@ ==> g.phe <= g.phb <= g.phe + 1
                }
                &&& s == 2 && g.w_in >= 1 && g.kw >= 1 && g.sw >= 1 && g.dw >= 1 ==> {
                    &&& (g.w_out - 1) * g.sw < g.w_in <= g.w_out * g.sw
                    &&& attrs.auto_pad == "SAME_UPPER"@ ==> g.pwb <= g.pwe <= g.pwb + 1
                    &&& attrs.auto_pad == "SAME_LOWER"@ ==> g.pwe <= g.pwb <= g.pwe + 1
                }
            }
        }),
{
    reveal_strlit("NOTSET");
    reveal_strlit("VALID");
    reveal_strlit("SAME_UPPER");
    reveal_strlit("SAME_LOWER");
    assert("SAME_UPPER"@[5] != "SAME_LOWER"@[5]);
    assert("NOTSET"@.len() == 6 && "VALID"@.len() == 5 && "SAME_UPPER"@.len() == 10);
    let s = x.len() - 2;
    let a = window_of(attrs, x, w.skip(2))->Some_0;
    if attrs.auto_pad == "SAME_UPPER"@ || attrs.auto_pad == "SAME_LOWER"@ {
        let upper = attrs.auto_pad == "SAME_UPPER"@;
        let bare = WindowView {
            kernel: ints_or(attrs.kernel, w.skip(2)),
            strides: ints_or(attrs.strides, repeated(1, s)),
            dilations: ints_or(attrs.dilations, repeated(1, s)),
            pads: ints_or(attrs.pads, repeated(0, 2 * s)),
        };
        assert(same_possible(x, bare, 0));
        if g.h_in >= 1 && g.kh >= 1 && g.sh >= 1 && g.dh >= 1 {
            law_same_keeps_size(g.h_in, g.kh, g.sh, g.dh, upper);
            lemma_ceil(g.h_in, g.sh);
            lemma_same_fits(g.h_in, g.kh, g.sh, g.dh, upper);
        }
        if s == 2 {
            assert(same_possible(x, bare, 1));
            if g.w_in >= 1 && g.kw >= 1 && g.sw >= 1 && g.dw >= 1 {
                law_same_keeps_size(g.w_in, g.kw, g.sw, g.dw, upper);
                lemma_ceil(g.w_in, g.sw);
                lemma_same_fits(g.w_in, g.kw, g.sw, g.dw, upper);
            }
        }
    }
}

proof fn lemma_same_fits(in_dim: int, k: int, stride: int, dil: int, upper: bool)
    requires
        in_range(same_padding(in_dim, k, stride, dil)),
    ensures
        in_range(same_split(upper, same_padding(in_dim, k, stride, dil)).0),
        in_range(same_split(upper, same_padding(in_dim, k, stride, dil)).1),
{
}

proof fn lemma_ceil(n: int, s: int)
    requires
        s >= 1,
        n >= 1,
    ensures
        (ceil_div(n, s) - 1) * s < n <= ceil_div(n, s) * s,
{
    let q = ceil_div(n, s);
    assert((q - 1) * s < n <= q * s) by (nonlinear_arith)
        requires
            q == (n + s - 1) / s,
            s >= 1,
            n >= 1,
    ;
}

/// **A transposed convolution ends where its last window does**: but for the padding that is cut
/// off and the elements that are added, the last element of the window of the last input element
/// is the last of the output.
pub proof fn law_grown_ends(in_dim: int, b: int, e: int, k: int, s: int, d: int, extra: int)
    ensures
        window_place(in_dim - 1, k - 1, s, d, b) == grown(in_dim, b, e, k, s, d, extra) - extra + e
            - 1,
{
    assert(d * (k - 1) == (k - 1) * d) by (nonlinear_arith);
}

/// **The geometry of a transposed convolution**: images and input channels are those of the
/// input, each group makes as many output channels as the weights list second, and every dimension
/// grows by its window.
pub proof fn law_transposed_geometry(
    attrs: AttrsView,
    extra: Option<Seq<i64>>,
    x: Seq<i64>,
    w: Seq<i64>,
    g: GeomView,
)
    requires
        transposed_of(attrs, extra, x, w) == Some(g),
    ensures
        x.len() == 3 || x.len() == 4,
        g.n == x[0],
        g.c_in == x[1],
        g.gsi == w[1],
        g.group == attrs.group,
        g.group >= 1,
        g.c_out == g.gsi * g.group,
        g.h_in == x[2],
        x.len() == 4 ==> g.w_in == x[3],
        x.len() == 3 ==> g.w_in == 1 && g.kw == 1 && g.sw == 1 && g.dw == 1 && g.pwb == 0 && g.pwe
            == 0 && g.w_out == 1,
        g.kh == given_or(attrs.kernel, 0, w[2] as int),
        x.len() == 4 ==> g.kw == given_or(attrs.kernel, 1, w[3] as int),
        g.sh == given_or(attrs.strides, 0, 1),
        x.len() == 4 ==> g.sw == given_or(attrs.strides, 1, 1),
        g.dh == given_or(attrs.dilations, 0, 1),
        x.len() == 4 ==> g.dw == given_or(attrs.dilations, 1, 1),
        g.phb == given_or(attrs.pads, 0, 0),
        g.phe == given_or(attrs.pads, x.len() - 2, 0),
        x.len() == 4 ==> g.pwb == given_or(attrs.pads, 1, 0),
        x.len() == 4 ==> g.pwe == given_or(attrs.pads, 3, 0),
        g.h_out == grown(g.h_in, g.phb, g.phe, g.kh, g.sh, g.dh, given_or(extra, 0, 0)),
        x.len() == 4 ==> g.w_out == grown(
            g.w_in,
            g.pwb,
            g.pwe,
            g.kw,
            g.sw,
            g.dw,
            given_or(extra, 1, 0),
        ),
        g.h_out >= 1,
        g.w_out >= 1,
        g.out_shape.len() == x.len(),
        g.out_shape[0] == g.n,
        g.out_shape[1] == g.c_out,
        g.out_shape[2] == g.h_out,
        x.len() == 4 ==> g.out_shape[3] == g.w_out,
        g.n >= 0 && g.c_out >= 0 ==> g.total == g.n * g.c_out * g.h_out * g.w_out,
{
    let out = seq![x[0], g.c_out as i64, g.h_out as i64, g.w_out as i64];
    lemma_product_of_four(out);
    if attrs.kernel is None {
        assert(w.skip(2)[0] == w[2]);
        if x.len() == 4 {
            assert(w.skip(2)[1] == w[3]);
        }
    }
    let (n, c, h, v) = (g.n, g.c_out, g.h_out, g.w_out);
    if n >= 0 && c >= 0 {
        assert(n * c * h * v >= 0) by (nonlinear_arith)
            requires
                n >= 0,
                c >= 0,
                h >= 1,
                v >= 1,
        ;
    }
    assert(grown(1, 0, 0, 1, 1, 1, 0) == 1) by (nonlinear_arith);
}

/// **The device is asked about the problem as it is**: what decides whether phases pay is the batch,
/// the groups, the window and whether anything is cut off or added; what decides the layout of a
/// convolution is how many pixels, channels and products for each there are.
pub proof fn law_problem_as_it_is(g: GeomView, extra: Option<Seq<i64>>)
    requires
        in_range(g.n) && in_range(g.group) && in_range(g.kh) && in_range(g.kw) && in_range(g.sh)
            && in_range(g.sw) && in_range(g.dh) && in_range(g.dw),
    ensures
        ({
            let q = phase_geom_of(g, extra);
            &&& q.batch == g.n
            &&& q.group == g.group
            &&& q.kernel.0 == g.kh && q.kernel.1 == g.kw
            &&& q.stride.0 == g.sh && q.stride.1 == g.sw
            &&& q.dilation.0 == g.dh && q.dilation.1 == g.dw
            &&& q.zero_pads == (g.phb == 0 && g.phe == 0 && g.pwb == 0 && g.pwe == 0)
            &&& q.zero_output_padding == (extra matches Some(l) ==> forall|i: int|
                0 <= i < l.len() ==> (#[trigger] l[i]) == 0)
        }),
        product_size_of(g) matches Some(z) ==> z.0 == g.h_out * g.w_out && z.1 == g.c_out && z.2
            == g.gsi * g.kh * g.kw,
{
}

// --- a product for each place of the kernel ---------------------------------------------

proof fn lemma_phase_at(g: GeomView, has_bias: bool, tile: u32, k: int, p: int)
    requires
        0 <= p < k,
    ensures
        phase_commands(g, has_bias, tile, k).len() == 3 * k,
        phase_commands(g, has_bias, tile, k)[3 * p] == pack_command(g, p),
        phase_commands(g, has_bias, tile, k)[3 * p + 1] == phase_product(g, has_bias, tile, p),
        phase_commands(g, has_bias, tile, k)[3 * p + 2] == interleave_command(g, p),
    decreases k,
{
    if p < k - 1 {
        lemma_phase_at(g, has_bias, tile, k - 1, p);
    } else if k > 1 {
        lemma_phase_at(g, has_bias, tile, k - 1, 0);
    } else {
        assert(phase_commands(g, has_bias, tile, 0).len() == 0);
    }
}

/// Whether a command fills the output with the bias.
pub open spec fn fills_with_bias(cmd: CommandView, g: GeomView, has_bias: bool) -> bool {
    cmd matches CommandView::Run(d) && {
        &&& d.kernel == Kernel::ConvTransposeFill
        &&& d.slots.len() == 2
        &&& takes_bias(d, 0, has_bias)
        &&& d.slots[1] == Slot::Output(0)
        &&& told(d.push, 0, g.c_out * (g.h_out * g.w_out))
        &&& told(d.push, 1, g.h_out * g.w_out)
        &&& told_whether(d.push, 2, has_bias)
        &&& reach_all(d.grid.x, 256, g.c_out * (g.h_out * g.w_out))
    }
}

/// Whether a command takes the weights of kernel place `i` out of the second input, once, and
/// keeps them in the buffer behind that of the products.
pub open spec fn packs_place(cmd: CommandView, g: GeomView, i: int) -> bool {
    cmd matches CommandView::Once(slot, d) && {
        &&& slot == 1 + i
        &&& d.kernel == Kernel::ConvTransposePack
        &&& d.slots == seq![Slot::Input(1), Slot::Scratch((1 + i) as usize)]
        &&& d.push.len() == 3
        &&& told(d.push, 0, g.c_in * g.c_out)
        &&& told(d.push, 1, g.kh * g.kw)
        &&& told(d.push, 2, i)
        &&& reach_all(d.grid.x, 256, g.c_in * g.c_out)
    }
}

/// Whether a command multiplies the weights of kernel place `i`, transposed, by the input, and
/// adds the bias, channel by channel.
pub open spec fn multiplies_place(
    cmd: CommandView,
    g: GeomView,
    has_bias: bool,
    tile: u32,
    i: int,
) -> bool {
    cmd matches CommandView::Run(d) && {
        &&& d.kernel == Kernel::ConvTransposeGemm
        &&& d.slots.len() == 4
        &&& d.slots[0] == Slot::Scratch((1 + i) as usize)
        &&& d.slots[1] == Slot::Input(0)
        &&& takes_bias(d, 2, has_bias)
        &&& d.slots[3] == Slot::Scratch(0)
        &&& d.push.len() == 8
        &&& told(d.push, 0, g.c_out)
        &&& told(d.push, 1, g.c_in)
        &&& told(d.push, 2, g.h_in * g.w_in)
        &&& d.push[3] % 2 == 1
        &&& d.push[3] / 2 % 2 == 0
        &&& (d.push[3] / 4 == 1) == has_bias
        &&& d.push[4] == 0x3f80_0000
        &&& d.push[5] == 0x3f80_0000
        &&& told(d.push, 6, g.c_out)
        &&& told(d.push, 7, 1)
        &&& reach_all(d.grid.x, tile as int, g.h_in * g.w_in)
        &&& reach_all(d.grid.y, tile as int, g.c_out)
        &&& d.grid.z == 1
    }
}

/// Whether a command brings the product of the place in row `r` and column `c` of the kernel to
/// the output.
pub open spec fn interleaves_place(cmd: CommandView, g: GeomView, r: int, c: int) -> bool {
    cmd matches CommandView::Run(d) && {
        &&& d.kernel == Kernel::ConvTransposeInterleave
        &&& d.slots == seq![Slot::Scratch(0), Slot::Output(0)]
        &&& d.push.len() == 9
        &&& told(d.push, 0, g.c_out * (g.h_in * g.w_in))
        &&& told(d.push, 1, g.h_in)
        &&& told(d.push, 2, g.w_in)
        &&& told(d.push, 3, g.h_out)
        &&& told(d.push, 4, g.w_out)
        &&& told(d.push, 5, g.sh)
        &&& told(d.push, 6, g.sw)
        &&& told(d.push, 7, r)
        &&& told(d.push, 8, c)
        &&& reach_all(d.grid.x, 256, g.c_out * (g.h_in * g.w_in))
    }
}

proof fn lemma_fills(g: GeomView, has_bias: bool)
    requires
        g.sh > g.kh || g.sw > g.kw,
    ensures
        fill_commands(g, has_bias).len() == 1,
        fills_with_bias(fill_commands(g, has_bias)[0], g, has_bias),
{
    lemma_reach(g.c_out * (g.h_out * g.w_out), 256);
}

proof fn lemma_packs(g: GeomView, i: int)
    ensures
        packs_place(pack_command(g, i), g, i),
{
    lemma_reach(g.c_in * g.c_out, 256);
}

proof fn lemma_multiplies(g: GeomView, has_bias: bool, tile: u32, i: int)
    requires
        tile > 0,
    ensures
        multiplies_place(phase_product(g, has_bias, tile, i), g, has_bias, tile, i),
{
    lemma_reach(g.h_in * g.w_in, tile as int);
    lemma_reach(g.c_out, tile as int);
}

proof fn lemma_interleaves(g: GeomView, r: int, c: int)
    requires
        0 <= r,
        0 <= c < g.kw,
    ensures
        interleaves_place(interleave_command(g, r * g.kw + c), g, r, c),
{
    vstd::arithmetic::div_mod::lemma_fundamental_div_mod_converse(r * g.kw + c, g.kw, r, c);
    lemma_reach(g.c_out * (g.h_in * g.w_in), 256);
}

/// **In phases, every place of the kernel adds its product once**: the weights of the place, kept
/// packed, times the input, with the bias; then the product goes to the output pixels that the
/// place reaches. Where a stride is wider than the kernel, the output is first filled with the
/// bias.
pub proof fn law_phases_cover_the_kernel(
    g: GeomView,
    has_bias: bool,
    w_name: Seq<char>,
    tile: u32,
    p: PlanView,
    r: int,
    c: int,
)
    requires
        conv_transpose_plan_of(g, has_bias, Some((w_name, tile))) == Some(p),
        g.total > 0,
        tile > 0,
        0 <= r < g.kh,
        0 <= c < g.kw,
    ensures
        p.outputs.len() == 1,
        fresh_words(p.outputs[0], FLOAT, g.out_shape, g.total),
        ({
            let wide = g.sh > g.kh || g.sw > g.kw;
            let from = if wide {
                1int
            } else {
                0
            };
            let i = r * g.kw + c;
            &&& 0 <= i < g.kh * g.kw
            &&& p.commands.len() == from + 3 * (g.kh * g.kw)
            &&& wide ==> fills_with_bias(p.commands[0], g, has_bias)
            &&& packs_place(p.commands[from + 3 * i], g, i)
            &&& multiplies_place(p.commands[from + 3 * i + 1], g, has_bias, tile, i)
            &&& interleaves_place(p.commands[from + 3 * i + 2], g, r, c)
            &&& p.scratch.len() == 1 + g.kh * g.kw
            &&& p.scratch[0] matches ScratchView::Temporary(b) && b >= 4 * (g.c_out * (g.h_in
                * g.w_in))
            &&& p.scratch[1 + i] matches ScratchView::Kept(key, b) && b >= 4 * (g.c_in * g.c_out)
                && w_name.is_prefix_of(key.name)
        }),
{
    let i = r * g.kw + c;
    let n = g.kh * g.kw;
    let pixels = g.h_in * g.w_in;
    let (kh, kw) = (g.kh, g.kw);
    assert(0 <= i < n) by (nonlinear_arith)
        requires
            0 <= r < kh,
            0 <= c < kw,
            i == r * kw + c,
            n == kh * kw,
    ;
    let start = fill_commands(g, has_bias);
    let rest = phase_commands(g, has_bias, tile, n);
    lemma_phase_at(g, has_bias, tile, n, i);
    assert(p.commands == start + rest);
    if g.sh > g.kh || g.sw > g.kw {
        lemma_fills(g, has_bias);
        assert(p.commands[0] == start[0]);
    } else {
        assert(start.len() == 0);
    }
    let from = start.len() as int;
    assert(p.commands[from + 3 * i] == rest[3 * i]);
    assert(p.commands[from + 3 * i + 1] == rest[3 * i + 1]);
    assert(p.commands[from + 3 * i + 2] == rest[3 * i + 2]);
    lemma_packs(g, i);
    lemma_multiplies(g, has_bias, tile, i);
    lemma_interleaves(g, r, c);
    let (ci, co, hi, wi) = (g.c_in, g.c_out, g.h_in, g.w_in);
    assert(hi * wi >= 0 && co * (hi * wi) >= 0 && ci * co >= 0) by (nonlinear_arith)
        requires
            hi >= 0,
            wi >= 0,
            co >= 0,
            ci >= 0,
    ;
    lemma_fresh(FLOAT, g.total);
    lemma_fresh(FLOAT, co * pixels);
    lemma_fresh(FLOAT, ci * co);
    let key = phase_key(g, w_name, i);
    let tail = "#ct"@ + crate::text::decimal_digits(i as nat);
    assert(key.name =~= w_name + tail);
    assert(w_name =~= key.name.subrange(0, w_name.len() as int));
    let part = crate::execution::device_bytes(FLOAT, co * pixels)->Ok_0;
    let weights = crate::execution::device_bytes(FLOAT, ci * co)->Ok_0;
    assert(p.scratch == phase_buffers(g, w_name, part, weights, n));
    assert(p.scratch[1 + i] == ScratchView::Kept(key, weights));
}

} // verus!
