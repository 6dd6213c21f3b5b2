//! What an attention is started with.

use crate::graph::NodeIr;
use crate::host_ops::FLOAT;
use crate::interp::attention::{
    attention_of, attention_sizes_of, AttentionShapesView, AttentionSizes,
};
use crate::interp::launch::{fresh_words, lemma_fresh, told};
use crate::plan::{Kernel, PlanView, Slot};
use vstd::prelude::*;

verus! {

/// **Attention has a work group for each head of queries, each new position and each entry of the
/// batch**, along x, y and z in this order. It reads queries, keys and values of the new
/// positions, then those keys and values that came before, then cosines and sines; it writes the
/// output, the keys and the values of the whole context. The scores are scaled by the attribute,
/// or else by the factor that is handed in, and heads are rotated where the node says so.
pub proof fn law_attention_is_started(node: NodeIr, s: AttentionSizes, scale: u32, p: PlanView)
    requires
        attention_of(node, s, scale) == Some(p),
    ensures
        p.outputs.len() == 3,
        p.scratch.len() == 0,
        s.batch <= i64::MAX && s.seq <= i64::MAX && s.width <= i64::MAX ==> {
            let out = p.outputs[0];
            &&& fresh_words(out, FLOAT, out.shape, s.out_count as int)
            &&& out.shape.len() == 3
            &&& out.shape[0] == s.batch
            &&& out.shape[1] == s.seq
            &&& out.shape[2] == s.width
        },
        s.batch <= i64::MAX && s.kv_heads <= i64::MAX && s.total_len <= i64::MAX && s.head_dim
            <= i64::MAX ==> {
            let context = p.outputs[1];
            &&& fresh_words(context, FLOAT, context.shape, s.present_count as int)
            &&& context.shape.len() == 4
            &&& context.shape[0] == s.batch
            &&& context.shape[1] == s.kv_heads
            &&& context.shape[2] == s.total_len
            &&& context.shape[3] == s.head_dim
        },
        p.outputs[2] == p.outputs[1],
        p.commands.len() == 1,
        p.commands[0] is Run,
        ({
            let d = p.commands[0]->Run_0;
            &&& s.q_heads <= u32::MAX ==> d.grid.x == s.q_heads
            &&& s.seq <= u32::MAX ==> d.grid.y == s.seq
            &&& s.batch <= u32::MAX ==> d.grid.z == s.batch
            &&& d.slots.len() == 10
            &&& forall|i: int| 0 <= i < 5 ==> #[trigger] d.slots[i] == Slot::Input(i as usize)
            &&& d.slots[5] == Slot::Input(7)
            &&& d.slots[6] == Slot::Input(8)
            &&& forall|i: int|
                0 <= i < 3 ==> #[trigger] d.slots[7 + i] == Slot::Output(i as usize)
            &&& d.push.len() == 9
            &&& told(d.push, 0, s.batch as int)
            &&& told(d.push, 1, s.seq as int)
            &&& told(d.push, 2, s.q_heads as int)
            &&& told(d.push, 3, s.kv_heads as int)
            &&& told(d.push, 4, s.head_dim as int)
            &&& told(d.push, 5, s.past_len as int)
            &&& told(d.push, 6, s.total_len as int)
            &&& d.push[7] == node.float_attr("scale"@, scale)
            &&& told(d.push, 8, node.int_attr("do_rotary"@, 0) as int)
            &&& (d.kernel == Kernel::AttentionRearranged) == (node.int_attr("qk_reorder"@, 0) != 0)
            &&& d.kernel == Kernel::AttentionRearranged || d.kernel == Kernel::Attention
        }),
{
    lemma_fresh(FLOAT, s.out_count as int);
    lemma_fresh(FLOAT, s.present_count as int);
}

/// **The sizes of an attention belong together**: all heads of queries make up the last dimension
/// of the queries, and are shared out evenly among the heads of keys and values; the context grows
/// by the new positions, and the tables of cosines and sines reach to its end; the counts are those
/// of the output and of the whole context.
pub proof fn law_attention_sizes(
    node: NodeIr,
    s: AttentionShapesView,
    max_context: u32,
    z: AttentionSizes,
)
    requires
        attention_sizes_of(node, s, max_context) == Some(z),
    ensures
        node.opt_int_attr("num_heads"@) == Some(z.q_heads as i64),
        node.opt_int_attr("kv_num_heads"@) == Some(z.kv_heads as i64),
        z.q_heads > 0,
        z.kv_heads > 0,
        z.q_heads % z.kv_heads == 0,
        s.q.len() == 3,
        s.q[0] == z.batch,
        s.q[1] == z.seq,
        s.q[2] == z.width,
        z.width == z.q_heads * z.head_dim,
        s.k.len() == 3,
        s.k[0] == z.batch,
        s.k[1] == z.seq,
        s.k[2] == z.kv_heads * z.head_dim,
        s.v == s.k,
        s.past_k.len() == 4,
        s.past_k[0] == z.batch,
        s.past_k[1] == z.kv_heads,
        s.past_k[2] == z.past_len,
        s.past_k[3] == z.head_dim,
        s.past_v == s.past_k,
        z.total_len == z.past_len + z.seq,
        z.total_len <= max_context,
        s.cos >= z.total_len * (z.head_dim / 2),
        s.sin >= z.total_len * (z.head_dim / 2),
        z.out_count == z.batch * z.seq * z.width,
        z.present_count == z.batch * z.kv_heads * z.total_len * z.head_dim,
{
    let qh = node.opt_int_attr("num_heads"@)->Some_0;
    let kvh = node.opt_int_attr("kv_num_heads"@)->Some_0;
    let (batch, seq, width) = (s.q[0] as int, s.q[1] as int, s.q[2] as int);
    let dim = width / (qh as int);
    let q = qh as int;
    let k = kvh as int;
    vstd::arithmetic::div_mod::lemma_fundamental_div_mod(width, q);
    assert(0 <= dim <= width) by (nonlinear_arith)
        requires
            dim == width / q,
            q >= 1,
            width >= 0,
    ;
    let f = q / k;
    vstd::arithmetic::div_mod::lemma_fundamental_div_mod(q, k);
    assert(k <= q) by (nonlinear_arith)
        requires
            q == k * f,
            q > 0,
            k > 0,
    ;
    assert(0 <= k * dim <= q * dim) by (nonlinear_arith)
        requires
            0 <= k <= q,
            dim >= 0,
    ;
    let total = s.past_k[2] + seq;
    let a = seq![batch as i64, seq as i64, qh, dim as i64];
    let b = seq![batch as i64, kvh, total as i64, dim as i64];
    crate::interp::conv_laws::lemma_product_of_four(a);
    crate::interp::conv_laws::lemma_product_of_four(b);
    assert(batch * seq * q * dim == batch * seq * width) by (nonlinear_arith)
        requires
            width == q * dim,
    ;
    assert(batch * seq * width >= 0) by (nonlinear_arith)
        requires
            batch >= 0,
            seq >= 0,
            width >= 0,
    ;
    assert(batch * k * total * dim >= 0) by (nonlinear_arith)
        requires
            batch >= 0,
            k >= 0,
            total >= 0,
            dim >= 0,
    ;
}

} // verus!
