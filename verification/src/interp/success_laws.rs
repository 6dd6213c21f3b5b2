//! What is not refused.

use crate::graph::{NodeIr, TensorView};
use crate::host_ops::{BinOp, FLOAT, INT32, INT8, UINT8};
use crate::interp::attention::{attention_of, attention_sizes_of, AttentionShapesView};
use crate::interp::conv::{conv_plan_of, conv_transpose_plan_of, phases_fit, ConvTuning};
use crate::interp::conv_laws::given_or;
use crate::interp::elementwise::{cast_of, clip_of, gpu_binary_of, mapped_of};
use crate::interp::int_product::{
    conv_integer_of, is_pointwise, matmul_integer_of, IntOperands, IntTuning,
};
use crate::interp::norm::{from_front, layernorm_of, rmsnorm_of, skip_rmsnorm_of, softmax_of};
use crate::interp::product::{
    gemm_of, matmul_of, nbits_of, stack, Extent, MatMulTuning, NbitsTuning,
};
use crate::interp::product_laws::{as_used, lemma_product_of_two};
use crate::interp::quantize::{dequantize_plan_of, dynamic_quantize_of, quantize_plan_of};
use crate::interp::sampling::reduce_of;
use crate::interp::window::{extent, geometry_of, AttrsView, GeomView};
use crate::num::{in_range, product_fits, volume_of};
use crate::plan::{output_of, Kernel, ReduceKind};
use crate::shape::{joins, joint_shape, product};
use vstd::prelude::*;

verus! {

/// Whether so many elements of four bytes can be stored.
pub open spec fn storable(n: int) -> bool {
    0 <= n && 32 * n + 16 <= usize::MAX
}

proof fn lemma_storable(dtype: i32, shape: Seq<i64>, n: int)
    requires
        storable(n),
        dtype == FLOAT || dtype == INT32 || dtype == UINT8 || dtype == INT8,
    ensures
        output_of(dtype, shape, n) is Some,
        crate::execution::device_bytes(dtype, n) is Ok,
{
    let bits = crate::graph::code_bits(dtype);
    assert(bits == Some(32usize) || bits == Some(8usize));
}

/// Whether the product of the dimensions, taken from the left, can be counted.
pub open spec fn countable(shape: Seq<i64>) -> bool {
    product_fits(shape) && 0 <= product(shape) && storable(product(shape))
}

// --- convolutions -----------------------------------------------------------------------

/// **A window that fits is a convolution**: lists of as many entries as there are dimensions,
/// strides that move, at least one window in each direction, and a result that can be counted.
pub proof fn law_conv_geometry_succeeds(attrs: AttrsView, x: Seq<i64>, w: Seq<i64>)
    requires
        x.len() == 4,
        w.len() == 4,
        attrs.auto_pad == "NOTSET"@,
        attrs.kernel matches Some(l) ==> l.len() == 2,
        attrs.strides matches Some(l) ==> l.len() == 2 && l[0] > 0 && l[1] > 0,
        attrs.dilations matches Some(l) ==> l.len() == 2,
        attrs.pads matches Some(l) ==> l.len() == 4,
        ({
            let h = extent(
                x[2] as int,
                given_or(attrs.pads, 0, 0),
                given_or(attrs.pads, 2, 0),
                given_or(attrs.kernel, 0, w[2] as int),
                given_or(attrs.strides, 0, 1),
                given_or(attrs.dilations, 0, 1),
            );
            let v = extent(
                x[3] as int,
                given_or(attrs.pads, 1, 0),
                given_or(attrs.pads, 3, 0),
                given_or(attrs.kernel, 1, w[3] as int),
                given_or(attrs.strides, 1, 1),
                given_or(attrs.dilations, 1, 1),
            );
            0 < h <= i64::MAX && 0 < v <= i64::MAX && volume_of(
                seq![x[0], w[0], h as i64, v as i64],
            ) is Some
        }),
    ensures
        geometry_of(attrs, x, w) is Some,
{
    assert(w.skip(2)[0] == w[2] && w.skip(2)[1] == w[3] && w.skip(2).len() == 2);
}

/// **Every convolution that can be stored has a plan**, with or without a bias, whatever the number
/// of groups.
pub proof fn law_conv_succeeds(g: GeomView, has_bias: bool, t: ConvTuning)
    requires
        storable(g.total),
        g.group == 1 ==> in_range(g.h_out * g.w_out) && 0 <= g.n && (if g.n == 0 {
            1
        } else {
            g.n
        }) * (match t.split {
            Some(s) => s as int,
            None => 1,
        }) <= u32::MAX && g.n <= u32::MAX,
        g.group == 1 ==> (t.split matches Some(s) ==> storable(s * g.total)),
    ensures
        conv_plan_of(g, has_bias, t) is Some,
{
    lemma_storable(FLOAT, g.out_shape, g.total);
    if g.group == 1 {
        if let Some(s) = t.split {
            lemma_storable(FLOAT, g.out_shape, s * g.total);
        }
    }
}

/// Every transposed convolution that can be stored has a plan, element by element.
pub proof fn law_conv_transpose_succeeds(g: GeomView, has_bias: bool)
    requires
        storable(g.total),
    ensures
        conv_transpose_plan_of(g, has_bias, None) is Some,
{
    lemma_storable(FLOAT, g.out_shape, g.total);
}

/// Every transposed convolution whose parts can be counted and stored has a plan in phases.
pub proof fn law_phases_succeed(g: GeomView, has_bias: bool, w_name: Seq<char>, tile: u32)
    requires
        storable(g.total),
        storable(g.c_out * (g.h_in * g.w_in)),
        storable(g.c_in * g.c_out),
        phases_fit(g),
    ensures
        conv_transpose_plan_of(g, has_bias, Some((w_name, tile))) is Some,
{
    lemma_storable(FLOAT, g.out_shape, g.total);
    lemma_storable(FLOAT, g.out_shape, g.c_out * (g.h_in * g.w_in));
    lemma_storable(FLOAT, g.out_shape, g.c_in * g.c_out);
}

/// Every integer convolution that is no matrix product and can be stored has a plan.
pub proof fn law_conv_integer_succeeds(g: GeomView, o: IntOperands, w_name: Seq<char>, t: IntTuning)
    requires
        storable(g.total),
        !is_pointwise(g) || g.total == 0,
    ensures
        conv_integer_of(g, o, w_name, t) is Some,
{
    lemma_storable(INT32, g.out_shape, g.total);
}

/// So has every one that is a matrix product.
pub proof fn law_pointwise_succeeds(g: GeomView, o: IntOperands, w_name: Seq<char>, t: IntTuning)
    requires
        is_pointwise(g),
        g.total > 0,
        g.c_out >= 0,
        g.c_in >= 0,
        0 <= g.h_out * g.w_out,
        in_range(g.h_out * g.w_out),
        g.h_out * g.w_out <= usize::MAX,
        g.c_out <= usize::MAX,
        g.c_in <= usize::MAX,
        storable(g.c_out * (g.h_out * g.w_out)),
        storable(g.c_out * g.c_in),
        storable(g.c_in * (g.h_out * g.w_out)),
    ensures
        conv_integer_of(g, o, w_name, t) is Some,
{
    lemma_storable(INT32, g.out_shape, g.c_out * (g.h_out * g.w_out));
}

// --- products ---------------------------------------------------------------------------

/// **Matrices with matching inner dimensions multiply**: stacks that broadcast, of at most 65535
/// matrices in at most eight dimensions.
pub proof fn law_matmul_succeeds(a: Seq<i64>, b: Seq<i64>, t: MatMulTuning)
    requires
        a.len() >= 2,
        b.len() >= 2,
        a[a.len() - 2] >= 0,
        a.last() >= 0,
        b.last() >= 0,
        a.last() == b[b.len() - 2],
        joins(stack(a), stack(b)),
        joint_shape(stack(a), stack(b)).len() <= 8,
        product_fits(joint_shape(stack(a), stack(b))),
        0 < product(joint_shape(stack(a), stack(b))) <= 65535,
        a.last() <= usize::MAX,
        b.last() <= usize::MAX,
        storable(product(joint_shape(stack(a), stack(b))) * a[a.len() - 2]),
        storable(product(joint_shape(stack(a), stack(b))) * a[a.len() - 2] * b.last()),
        t.vector matches Some(s) ==> storable(s * b.last()),
    ensures
        matmul_of(a, b, t) is Some,
{
    assert(a.last() == a[a.len() - 1] && b.last() == b[b.len() - 1]);
    let batch = product(joint_shape(stack(a), stack(b)));
    let m = a[a.len() - 2] as int;
    assert(m <= batch * m) by (nonlinear_arith)
        requires
            batch >= 1,
            m >= 0,
    ;
    let shape = joint_shape(stack(a), stack(b)).push(m as i64).push(b.last());
    lemma_storable(FLOAT, shape, batch * m * b.last());
    if let Some(s) = t.vector {
        lemma_storable(FLOAT, shape, s * b.last());
    }
}

/// **`Gemm` takes matrices that multiply**, and any C of at most two dimensions.
pub proof fn law_gemm_succeeds(
    node: NodeIr,
    a: Seq<i64>,
    b: Seq<i64>,
    c: Option<Seq<i64>>,
    tile: u32,
)
    requires
        a.len() == 2,
        b.len() == 2,
        c matches Some(s) ==> s.len() <= 2,
        ({
            let (m, k) = as_used(a, node.int_attr("transA"@, 0) != 0);
            let (kb, n) = as_used(b, node.int_attr("transB"@, 0) != 0);
            k == kb && m >= 0 && n >= 0 && in_range(m * n) && storable(m * n)
        }),
    ensures
        gemm_of(node, a, b, c, tile) is Some,
{
    let (m, k) = as_used(a, node.int_attr("transA"@, 0) != 0);
    let (kb, n) = as_used(b, node.int_attr("transB"@, 0) != 0);
    let s = seq![m as i64, n as i64];
    lemma_product_of_two(s);
    let one = s.drop_last();
    assert(one.drop_last().len() == 0);
    assert(product_fits(one.drop_last()));
    assert(product(one.drop_last()) == 1);
    assert(one.last() == m);
    assert(product(one) == 1 * m);
    assert(product_fits(one));
    assert(product_fits(s));
    lemma_storable(FLOAT, s, m * n);
}

/// **Weights of four bits in blocks of 32 multiply** where there are as many as N columns of K.
pub proof fn law_nbits_succeeds(
    node: NodeIr,
    a: Seq<i64>,
    a_count: usize,
    w: Extent,
    scales: Extent,
    t: NbitsTuning,
    k: i64,
    n: i64,
)
    requires
        node.opt_int_attr("K"@) == Some(k),
        node.opt_int_attr("N"@) == Some(n),
        node.opt_int_attr("bits"@) == Some(4i64),
        node.opt_int_attr("block_size"@) == Some(32i64),
        0 < k <= usize::MAX,
        0 <= n <= usize::MAX,
        n * k <= usize::MAX,
        a.len() > 0,
        a.last() == k,
        w.dtype == UINT8,
        scales.dtype == FLOAT,
        w.elem_count == n * k / 2,
        scales.elem_count == n * k / 32,
        storable((a_count as int / k as int) * n),
    ensures
        nbits_of(node, a, a_count, w, scales, t) is Some,
{
    lemma_storable(FLOAT, a.drop_last().push(n), (a_count as int / k as int) * n);
}

/// **Integer matrices with matching inner dimensions multiply**, where these are whole words and B
/// is bytes, or kept.
pub proof fn law_matmul_integer_succeeds(
    a: Seq<i64>,
    b: Seq<i64>,
    a_signed: bool,
    b_signed: bool,
    b_name: Seq<char>,
    constant: bool,
    source: Option<TensorView>,
    t: IntTuning,
)
    requires
        a.len() >= 2,
        b.len() == 2,
        b[0] == a.last(),
        0 <= a.last() <= usize::MAX,
        a.last() % 4 == 0,
        0 <= b[1] <= usize::MAX,
        volume_of(a.drop_last()) is Some,
        storable(volume_of(a.drop_last())->Some_0 * b[1]),
        storable(a.last() * b[1]),
        match source {
            Some(s) => s.dtype == UINT8 || s.dtype == INT8,
            None => constant,
        },
    ensures
        matmul_integer_of(a, b, a_signed, b_signed, b_name, constant, source, t) is Some,
{
    let m = volume_of(a.drop_last())->Some_0;
    lemma_storable(INT32, a.drop_last().push(b[1]), m * b[1]);
    if let Some(s) = source {
        lemma_storable(s.dtype, b, a.last() * b[1]);
    }
}

// --- attention --------------------------------------------------------------------------

/// **Operands that suit each other attend**: queries for all heads, keys and values for their own,
/// a context of the same, and tables that reach to its end.
pub proof fn law_attention_succeeds(
    node: NodeIr,
    s: AttentionShapesView,
    max_context: u32,
    scale: u32,
    batch: i64,
    seq: i64,
    qh: i64,
    kvh: i64,
    dim: i64,
    past: i64,
)
    requires
        node.opt_int_attr("num_heads"@) == Some(qh),
        node.opt_int_attr("kv_num_heads"@) == Some(kvh),
        0 < qh <= usize::MAX,
        0 < kvh <= usize::MAX,
        qh % kvh == 0,
        0 <= batch <= usize::MAX,
        0 <= seq <= usize::MAX,
        0 <= dim,
        0 <= past <= usize::MAX,
        qh * dim <= i64::MAX,
        qh * dim <= usize::MAX,
        kvh * dim <= i64::MAX,
        s.q == seq![batch, seq, (qh * dim) as i64],
        s.k == seq![batch, seq, (kvh * dim) as i64],
        s.v == s.k,
        s.past_k == seq![batch, kvh, past, dim],
        s.past_v == s.past_k,
        past + seq <= max_context,
        s.cos >= (past + seq) * (dim as int / 2),
        s.sin >= (past + seq) * (dim as int / 2),
        volume_of(seq![batch, seq, qh, dim]) is Some,
        volume_of(seq![batch, kvh, (past + seq) as i64, dim]) is Some,
        storable(volume_of(seq![batch, seq, qh, dim])->Some_0),
        storable(volume_of(seq![batch, kvh, (past + seq) as i64, dim])->Some_0),
    ensures
        attention_sizes_of(node, s, max_context) matches Some(z) && attention_of(node, z, scale)
            is Some,
{
    let q = qh as int;
    let d = dim as int;
    assert(q * d == d * q) by (nonlinear_arith);
    assert(q * d >= 0) by (nonlinear_arith)
        requires
            q >= 0,
            d >= 0,
    ;
    vstd::arithmetic::div_mod::lemma_fundamental_div_mod_converse(q * d, q, d, 0);
    assert(s.q[2] == q * d);
    assert((q * d) / q == d);
    assert(s.k =~= seq![s.q[0], s.q[1], (kvh * d) as i64]);
    let out = volume_of(seq![batch, seq, qh, dim])->Some_0;
    let present = volume_of(seq![batch, kvh, (past + seq) as i64, dim])->Some_0;
    let z = attention_sizes_of(node, s, max_context)->Some_0;
    lemma_storable(FLOAT, seq![z.batch as i64, z.seq as i64, z.width as i64], out);
    lemma_storable(
        FLOAT,
        seq![z.batch as i64, z.kv_heads as i64, z.total_len as i64, z.head_dim as i64],
        present,
    );
}

// --- elements, lines, maps --------------------------------------------------------------

/// **A function of the elements of a tensor has a plan**, and so have bounds and conversions.
pub proof fn law_mapped_succeeds(
    kernel: Kernel,
    node: NodeIr,
    shape: Seq<i64>,
    n: int,
    rest: Seq<u32>,
    lo: Option<Seq<u32>>,
    hi: Option<Seq<u32>>,
    from: i32,
    to: i32,
)
    requires
        storable(n),
        to == FLOAT || to == INT32,
    ensures
        mapped_of(kernel, shape, n, rest) is Some,
        clip_of(node, shape, n, lo, hi) is Some,
        cast_of(from, to, shape, n) is Some,
{
    lemma_storable(FLOAT, shape, n);
    lemma_storable(to, shape, n);
}

/// **Shapes that broadcast can be computed with**, up to eight dimensions.
pub proof fn law_binary_succeeds(op: BinOp, a: Seq<i64>, b: Seq<i64>)
    requires
        joins(a, b),
        joint_shape(a, b).len() <= 8,
        countable(joint_shape(a, b)),
    ensures
        gpu_binary_of(op, a, b) is Some,
{
    lemma_storable(FLOAT, joint_shape(a, b), product(joint_shape(a, b)));
}

/// **Lines along any axis can be made to add up to one.**
pub proof fn law_softmax_succeeds(node: NodeIr, shape: Seq<i64>, n: int)
    requires
        storable(n),
        ({
            let a = from_front(node.int_attr("axis"@, (-1) as i64), shape.len() as int);
            0 <= a < shape.len() && product_fits(shape.skip(a + 1)) && product(shape.skip(a + 1))
                <= usize::MAX
        }),
    ensures
        softmax_of(node, shape, n) is Some,
{
    lemma_storable(FLOAT, shape, n);
}

/// **Lines of the last dimension are normalized** where the scale is as long and there are at most
/// 65535 of them.
pub proof fn law_norms_succeed(
    node: NodeIr,
    shape: Seq<i64>,
    n: int,
    scale_count: int,
    has_bias: bool,
)
    requires
        storable(n),
        shape.len() > 0,
        1 <= shape.last() <= usize::MAX,
        n / (shape.last() as int) <= 65535,
        scale_count == shape.last(),
    ensures
        from_front(node.int_attr("axis"@, (-1) as i64), shape.len() as int) == shape.len() - 1
            ==> layernorm_of(node, shape, n, scale_count, has_bias) is Some,
        rmsnorm_of(node, shape, n, scale_count) is Some,
        skip_rmsnorm_of(node, shape, n, shape, scale_count) is Some,
{
    lemma_storable(FLOAT, shape, n);
}

/// **A reduction along one axis has a plan.**
pub proof fn law_reduce_succeeds(node: NodeIr, kind: ReduceKind, shape: Seq<i64>, n: int)
    requires
        storable(n),
        node.ints_attr("axes"@) matches Some(l) && l.len() == 1,
        ({
            let a = from_front(node.ints_attr("axes"@)->Some_0[0], shape.len() as int);
            0 <= a < shape.len() && shape[a] >= 1 && product_fits(shape.skip(a + 1)) && product(
                shape.skip(a + 1),
            ) <= usize::MAX
        }),
    ensures
        reduce_of(node, kind, shape, n) is Some,
{
    let a = from_front(node.ints_attr("axes"@)->Some_0[0], shape.len() as int);
    let rows = n / (shape[a] as int);
    assert(0 <= rows <= n) by (nonlinear_arith)
        requires
            rows == n / (shape[a] as int),
            shape[a] >= 1,
            n >= 0,
    ;
    lemma_storable(
        FLOAT,
        crate::interp::sampling::reduced_shape(shape, a, node.int_attr("keepdims"@, 1) != 0),
        rows,
    );
}

/// **Bytes and integers of four bytes are dequantized**, with one scale or one for each element of
/// an axis; numbers are quantized to bytes in the same way.
pub proof fn law_quantization_succeeds(
    node: NodeIr,
    x: Seq<i64>,
    dtype: i32,
    scale: Seq<i64>,
    has_zero: bool,
)
    requires
        countable(x),
        dtype == UINT8 || dtype == INT8 || dtype == INT32,
        product_fits(scale),
        product(scale) <= 1,
    ensures
        dequantize_plan_of(node, x, dtype, scale, has_zero) is Some,
        dtype != INT32 ==> quantize_plan_of(node, x, scale, Some(dtype)) is Some,
        !node.attrs.has("output_dtype"@) ==> quantize_plan_of(node, x, scale, None) is Some,
{
    lemma_storable(FLOAT, x, product(x));
    lemma_storable(dtype, x, product(x));
    lemma_storable(UINT8, x, product(x));
}

/// **Elements are quantized dynamically** where there are some.
pub proof fn law_dynamic_quantize_succeeds(shape: Seq<i64>, n: int)
    requires
        storable(n),
        n > 0,
    ensures
        dynamic_quantize_of(shape, n) is Some,
{
    lemma_storable(UINT8, shape, n);
    lemma_storable(FLOAT, Seq::empty(), 1);
    lemma_storable(UINT8, Seq::empty(), 1);
}

} // verus!
