//! Attention with grouped queries.

use crate::error::{backend_error, Kind, Result};
use crate::graph::NodeIr;
use crate::host_ops::select::same_dims;
use crate::host_ops::FLOAT;
use crate::interp::conv::size;
use crate::num::{size_word, volume, volume_of, w32, word};
use crate::plan::{
    assembled, output, output_of, planned, run, run_of, Command, Kernel, Plan, PlanView, Produced,
    Slot,
};
use vstd::prelude::*;

verus! {

/// The sizes of an attention over a growing context.
#[derive(Debug, Clone, Copy, PartialEq, Eq, Structural)]
pub struct AttentionSizes {
    pub batch: usize,
    pub seq: usize,
    pub q_heads: usize,
    pub kv_heads: usize,
    pub head_dim: usize,
    /// The width of all heads of queries together.
    pub width: usize,
    /// The length of the context before the run.
    pub past_len: usize,
    /// The length of the context after it.
    pub total_len: usize,
    /// The number of output elements.
    pub out_count: usize,
    /// The number of elements of the keys, or the values, of the whole context.
    pub present_count: usize,
}

/// The shapes of the operands of an attention.
pub struct AttentionShapes<'a> {
    pub q: &'a [i64],
    pub k: &'a [i64],
    pub v: &'a [i64],
    pub past_k: &'a [i64],
    pub past_v: &'a [i64],
    /// The number of cosines.
    pub cos: usize,
    /// The number of sines.
    pub sin: usize,
}

#[verifier::ext_equal]
pub struct AttentionShapesView {
    pub q: Seq<i64>,
    pub k: Seq<i64>,
    pub v: Seq<i64>,
    pub past_k: Seq<i64>,
    pub past_v: Seq<i64>,
    pub cos: usize,
    pub sin: usize,
}

impl<'a> View for AttentionShapes<'a> {
    type V = AttentionShapesView;

    open spec fn view(&self) -> AttentionShapesView {
        AttentionShapesView {
            q: self.q@,
            k: self.k@,
            v: self.v@,
            past_k: self.past_k@,
            past_v: self.past_v@,
            cos: self.cos,
            sin: self.sin,
        }
    }
}

/// The sizes of an attention. Several heads of queries share one of keys and values; keys and
/// values come for the new positions, and for those before them in a table of their own; the
/// rotation tables reach to the end of the context, which is no longer than `max_context`.
pub open spec fn attention_sizes_of(node: NodeIr, s: AttentionShapesView, max_context: u32) -> Option<
    AttentionSizes,
> {
    match (node.opt_int_attr("num_heads"@), node.opt_int_attr("kv_num_heads"@)) {
        (Some(qh), Some(kvh)) => if 0 < qh <= usize::MAX && 0 < kvh <= usize::MAX && qh % kvh == 0
            && s.q.len() == 3 && 0 <= s.q[0] <= usize::MAX && 0 <= s.q[1] <= usize::MAX && 0
            <= s.q[2] <= usize::MAX && s.q[2] % qh == 0 {
            let (batch, seq, width) = (s.q[0] as int, s.q[1] as int, s.q[2] as int);
            let dim = width / (qh as int);
            let past = s.past_k[2] as int;
            let total = past + seq;
            if s.k == seq![s.q[0], s.q[1], (kvh * dim) as i64] && s.v == s.k && s.past_k.len()
                == 4 && s.past_k[0] == batch && s.past_k[1] == kvh && s.past_k[3] == dim
                && s.past_v == s.past_k && 0 <= past <= usize::MAX && total <= max_context && s.cos
                >= total * (dim / 2) && s.sin >= total * (dim / 2) {
                match (
                    volume_of(seq![batch as i64, seq as i64, qh, dim as i64]),
                    volume_of(seq![batch as i64, kvh, total as i64, dim as i64]),
                ) {
                    (Some(out), Some(present)) => Some(
                        AttentionSizes {
                            batch: batch as usize,
                            seq: seq as usize,
                            q_heads: qh as usize,
                            kv_heads: kvh as usize,
                            head_dim: dim as usize,
                            width: width as usize,
                            past_len: past as usize,
                            total_len: total as usize,
                            out_count: out as usize,
                            present_count: present as usize,
                        },
                    ),
                    _ => None,
                }
            } else {
                None
            }
        } else {
            None
        },
        _ => None,
    }
}

/// The sizes of an attention, where the shapes suit each other.
pub fn attention_sizes(node: &NodeIr, s: &AttentionShapes, max_context: u32) -> (r: Result<
    AttentionSizes,
>)
    ensures
        match r {
            Ok(z) => attention_sizes_of(*node, s@, max_context) == Some(z),
            Err(e) => attention_sizes_of(*node, s@, max_context) is None && e.kind()
                == Kind::Backend,
        },
{
    let (qv, kv): (i64, i64) = match (
        node.attr_opt_i64("num_heads"),
        node.attr_opt_i64("kv_num_heads"),
    ) {
        (Some(a), Some(b)) => (a, b),
        _ => {
            return Err(backend_error("the numbers of heads are missing"));
        },
    };
    let (q_heads, kv_heads): (usize, usize) = match (size(qv), size(kv)) {
        (Some(a), Some(b)) => (a, b),
        _ => {
            return Err(backend_error("the numbers of heads are not valid"));
        },
    };
    if q_heads == 0 || kv_heads == 0 || q_heads % kv_heads != 0 {
        return Err(backend_error("the numbers of heads do not suit each other"));
    }
    if s.q.len() != 3 {
        return Err(backend_error("the queries do not have three dimensions"));
    }
    let (batch, seq, width): (usize, usize, usize) = match (
        size(s.q[0]),
        size(s.q[1]),
        size(s.q[2]),
    ) {
        (Some(a), Some(b), Some(c)) => (a, b, c),
        _ => {
            return Err(backend_error("the queries have an unknown dimension"));
        },
    };
    if width % q_heads != 0 {
        return Err(backend_error("the queries do not divide into heads"));
    }
    let head_dim: usize = width / q_heads;
    proof {
        let (w, q, k, d) = (width as int, q_heads as int, kv_heads as int, head_dim as int);
        vstd::arithmetic::div_mod::lemma_fundamental_div_mod(w, q);
        vstd::arithmetic::div_mod::lemma_fundamental_div_mod(q, k);
        let f = q / k;
        assert(k <= q) by (nonlinear_arith)
            requires
                q == k * f + 0,
                q > 0,
                k > 0,
        ;
        assert(0 <= k * d <= q * d) by (nonlinear_arith)
            requires
                0 <= k <= q,
                d >= 0,
        ;
    }
    let group_width: usize = kv_heads * head_dim;
    let expected: Vec<i64> = vec![s.q[0], s.q[1], group_width as i64];
    assert(expected@ =~= seq![s.q@[0], s.q@[1], (kv_heads * head_dim) as i64]);
    if !same_dims(s.k, expected.as_slice()) || !same_dims(s.v, s.k) {
        return Err(backend_error("keys or values do not suit the queries"));
    }
    if s.past_k.len() != 4 || s.past_k[0] != s.q[0] || s.past_k[1] != kv || s.past_k[3]
        != head_dim as i64 || !same_dims(s.past_v, s.past_k) {
        return Err(backend_error("earlier keys or values do not suit the queries"));
    }
    let past_len: usize = match size(s.past_k[2]) {
        Some(p) => p,
        None => {
            return Err(backend_error("the context has an unknown length"));
        },
    };
    let total_len: usize = match past_len.checked_add(seq) {
        Some(t) => t,
        None => {
            return Err(backend_error("the context is too long"));
        },
    };
    if total_len as u64 > max_context as u64 {
        return Err(backend_error("the context is longer than the kernel allows"));
    }
    match total_len.checked_mul(head_dim / 2) {
        Some(need) => {
            if s.cos < need || s.sin < need {
                return Err(backend_error("the rotation tables are too short"));
            }
        },
        None => {
            return Err(backend_error("the rotation tables are too short"));
        },
    }
    let out_shape: Vec<i64> = vec![batch as i64, seq as i64, qv, head_dim as i64];
    assert(out_shape@ =~= seq![batch as i64, seq as i64, qv, head_dim as i64]);
    let present_shape: Vec<i64> = vec![batch as i64, kv, total_len as i64, head_dim as i64];
    assert(present_shape@ =~= seq![batch as i64, kv, total_len as i64, head_dim as i64]);
    match (volume(out_shape.as_slice()), volume(present_shape.as_slice())) {
        (Some(out_count), Some(present_count)) => Ok(
            AttentionSizes {
                batch,
                seq,
                q_heads,
                kv_heads,
                head_dim,
                width,
                past_len,
                total_len,
                out_count,
                present_count,
            },
        ),
        _ => Err(backend_error("the output is too large")),
    }
}

/// The kernel of an attention: the one that rearranges the heads where the node is told to.
pub open spec fn attention_kernel(node: NodeIr) -> Kernel {
    if node.int_attr("qk_reorder"@, 0) != 0 {
        Kernel::AttentionRearranged
    } else {
        Kernel::Attention
    }
}

/// The plan of an attention: the output, then keys and values of the whole context.
/// `scale` is the factor of the scores where no attribute gives it.
pub open spec fn attention_of(node: NodeIr, s: AttentionSizes, scale: u32) -> Option<PlanView> {
    let context = seq![s.batch as i64, s.kv_heads as i64, s.total_len as i64, s.head_dim as i64];
    match (
        output_of(
            FLOAT,
            seq![s.batch as i64, s.seq as i64, s.width as i64],
            s.out_count as int,
        ),
        output_of(FLOAT, context, s.present_count as int),
    ) {
        (Some(out), Some(present)) => Some(
            PlanView {
                outputs: seq![out, present, present],
                scratch: Seq::empty(),
                commands: seq![
                    run_of(
                        attention_kernel(node),
                        seq![
                            Slot::Input(0),
                            Slot::Input(1),
                            Slot::Input(2),
                            Slot::Input(3),
                            Slot::Input(4),
                            Slot::Input(7),
                            Slot::Input(8),
                            Slot::Output(0),
                            Slot::Output(1),
                            Slot::Output(2),
                        ],
                        seq![
                            w32(s.batch as int),
                            w32(s.seq as int),
                            w32(s.q_heads as int),
                            w32(s.kv_heads as int),
                            w32(s.head_dim as int),
                            w32(s.past_len as int),
                            w32(s.total_len as int),
                            node.float_attr("scale"@, scale),
                            w32(node.int_attr("do_rotary"@, 0) as int),
                        ],
                        w32(s.q_heads as int) as int,
                        w32(s.seq as int) as int,
                        w32(s.batch as int) as int,
                    ),
                ],
            },
        ),
        _ => None,
    }
}

/// Plans an attention.
pub fn group_query_attention(node: &NodeIr, s: AttentionSizes, scale: u32) -> (r: Result<Plan>)
    ensures
        planned(r, attention_of(*node, s, scale)),
{
    #[verifier::truncate]
    let shape: Vec<i64> = vec![s.batch as i64, s.seq as i64, s.width as i64];
    assert(shape@ =~= seq![s.batch as i64, s.seq as i64, s.width as i64]);
    let keys: Vec<i64> = context_shape(s);
    let values: Vec<i64> = context_shape(s);
    let out: Produced = match output(FLOAT, shape, s.out_count) {
        Ok(p) => p,
        Err(e) => {
            return Err(e);
        },
    };
    let (k, v): (Produced, Produced) = match (
        output(FLOAT, keys, s.present_count),
        output(FLOAT, values, s.present_count),
    ) {
        (Ok(k), Ok(v)) => (k, v),
        _ => {
            return Err(backend_error("the context cannot be stored"));
        },
    };
    let slots: Vec<Slot> = vec![
        Slot::Input(0),
        Slot::Input(1),
        Slot::Input(2),
        Slot::Input(3),
        Slot::Input(4),
        Slot::Input(7),
        Slot::Input(8),
        Slot::Output(0),
        Slot::Output(1),
        Slot::Output(2),
    ];
    let push: Vec<u32> = vec![
        size_word(s.batch),
        size_word(s.seq),
        size_word(s.q_heads),
        size_word(s.kv_heads),
        size_word(s.head_dim),
        size_word(s.past_len),
        size_word(s.total_len),
        node.attr_f32("scale", scale),
        word(node.attr_i64("do_rotary", 0)),
    ];
    let kernel = if node.attr_i64("qk_reorder", 0) != 0 {
        Kernel::AttentionRearranged
    } else {
        Kernel::Attention
    };
    let commands: Vec<Command> = vec![
        run(
            kernel,
            slots,
            push,
            size_word(s.q_heads),
            size_word(s.seq),
            size_word(s.batch),
        ),
    ];
    let plan = assembled(vec![out, k, v], Vec::new(), commands);
    proof {
        let want = attention_of(*node, s, scale)->Some_0;
        assert(slots@ =~= want.commands[0]->Run_0.slots);
        assert(push@ =~= want.commands[0]->Run_0.push);
        assert(plan@.outputs =~= want.outputs);
        assert(plan@.scratch =~= want.scratch);
        assert(plan@.commands =~= want.commands);
    }
    Ok(plan)
}

fn context_shape(s: AttentionSizes) -> (r: Vec<i64>)
    ensures
        r@ == seq![s.batch as i64, s.kv_heads as i64, s.total_len as i64, s.head_dim as i64],
{
    #[verifier::truncate]
    let r: Vec<i64> = vec![
        s.batch as i64,
        s.kv_heads as i64,
        s.total_len as i64,
        s.head_dim as i64,
    ];
    assert(r@ =~= seq![s.batch as i64, s.kv_heads as i64, s.total_len as i64, s.head_dim as i64]);
    r
}

} // verus!
