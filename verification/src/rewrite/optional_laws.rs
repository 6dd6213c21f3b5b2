//! What the optional rewrites put in the place of what they take away.

use crate::bytes::{element, lemma_picked_element, lemma_picked_same};
use crate::error::Kind;
use crate::graph::{size_of_code, GraphIr, NodeIr, TensorView};
use crate::host_ops::fill::lemma_element_within;
use crate::host_ops::gather::{element_coords, element_source, gather_elements_of};
use crate::host_ops::select::{
    entry_ok, lists_match, range_end, range_len, range_start, ranges, ranges_within,
    slice_of, slice_params_of, slice_source, Ranges,
};
use crate::host_ops::{elements, ints_of, lemma_sound_len};
use crate::rewrite::mask::{constant_equality, mask_at, reads_after, zero_constants, Mask};
use crate::rewrite::rearrange::{rearranged, rearrangement_at, Rearrangement};
use crate::rewrite::slices::{
    axes_name, ends_name, is_slice_for, row_end, row_pick, scalar_source, slice_constants,
    starts_name, RowPick,
};
use crate::rewrite::{int64_const_of, int_list, producer_in, scalar_f32_of, sole_consumer};
use crate::shape::{
    coord, count_of, lemma_coord_bound, lemma_count, lemma_nonempty, lemma_place_bound,
    lemma_weighted_same, lemma_whole, place, positive, product, suffix,
};
use crate::text::texts;
use vstd::prelude::*;

verus! {

// --- slices -----------------------------------------------------------------------------

/// **A range takes every step-th element from its start up to its end**: as long as the end is not
/// reached there is another one, in the direction of the step.
pub proof fn law_range_selects(start: int, end: int, step: int, dim: int, c: int)
    requires
        dim > 0,
        step != 0,
        c >= 0,
    ensures
        ({
            let s = range_start(start, step, dim);
            let e = range_end(end, step, dim);
            (c < range_len(start, end, step, dim)) == if step > 0 {
                s + c * step < e
            } else {
                s + c * step > e
            }
        }),
{
    let s = range_start(start, step, dim);
    let e = range_end(end, step, dim);
    let n = range_len(start, end, step, dim);
    let m = if step > 0 {
        step
    } else {
        -step
    };
    let gap = if step > 0 {
        e - s
    } else {
        s - e
    };
    assert(c * step == -(c * (-step))) by (nonlinear_arith);
    assert(c * m >= 0) by (nonlinear_arith)
        requires
            c >= 0,
            m >= 1,
    ;
    if gap > 0 {
        let q = (gap - 1) / m;
        assert(q * m <= gap - 1 < (q + 1) * m) by (nonlinear_arith)
            requires
                q == (gap - 1) / m,
                m >= 1,
                gap >= 1,
        ;
        if c <= q {
            assert(c * m <= q * m) by (nonlinear_arith)
                requires
                    c <= q,
                    m >= 1,
            ;
        } else {
            assert(c * m >= (q + 1) * m) by (nonlinear_arith)
                requires
                    c >= q + 1,
                    m >= 1,
            ;
        }
    }
}

/// **Positions count from either end**: one within the dimension is taken as it is, one from the
/// end is counted from the front, and those beyond are held at the ends.
pub proof fn law_range_starts(start: int, dim: int)
    requires
        dim > 0,
    ensures
        0 <= start < dim ==> range_start(start, 1, dim) == start && range_start(start, -1, dim)
            == start && range_end(start, 1, dim) == start && range_end(start, -1, dim) == start,
        -dim <= start < 0 ==> range_start(start, 1, dim) == start + dim && range_start(
            start,
            -1,
            dim,
        ) == start + dim && range_end(start, 1, dim) == start + dim && range_end(start, -1, dim)
            == start + dim,
        start >= dim ==> range_start(start, 1, dim) == dim && range_end(start, 1, dim) == dim
            && range_start(start, -1, dim) == dim - 1 && range_end(start, -1, dim) == dim - 1,
        start < -dim ==> range_start(start, 1, dim) == 0 && range_end(start, 1, dim) == 0
            && range_start(start, -1, dim) == 0 && range_end(start, -1, dim) == -1,
{
}

/// **A slice takes its elements along the ranges**: element `o` is the one whose coordinates are the
/// starts and as many steps as the coordinates of `o`.
pub proof fn law_slice_element(t: TensorView, r: Ranges, u: TensorView, o: int)
    requires
        slice_of(t, r) == Ok::<TensorView, Kind>(u),
        ranges_within(t.shape, r),
        0 <= o < product(r.out),
    ensures
        u.dtype == t.dtype,
        u.shape == r.out,
        element(u.data, size_of_code(t.dtype) as int, o) == element(
            t.data,
            size_of_code(t.dtype) as int,
            place(t.shape, |d: int| r.start[d] + coord(r.out, o, d) * r.step[d]),
        ),
{
    let es = size_of_code(t.dtype) as int;
    let n = count_of(r.out)->Some_0;
    let src = |i: int| slice_source(t.shape, r, i);
    lemma_count(r.out);
    lemma_nonempty(r.out);
    lemma_sound_len(t);
    lemma_count(t.shape);
    assert(positive(t.shape)) by {
        assert forall|d: int| 0 <= d < t.shape.len() implies #[trigger] t.shape[d] > 0 by {
            assert(r.out[d] > 0);
            assert(0 <= r.start[d] + 0 * r.step[d] < t.shape[d]);
        }
    }
    lemma_whole(t.shape);
    assert forall|i: int| 0 <= i < n implies 0 <= #[trigger] src(i) && src(i) * es + es
        <= t.data.len() by {
        let x = |d: int| r.start[d] + coord(r.out, i, d) * r.step[d];
        assert forall|d: int| 0 <= d < t.shape.len() implies 0 <= #[trigger] x(d) < t.shape[d] by {
            lemma_coord_bound(r.out, i, d);
            let c = coord(r.out, i, d);
            assert(0 <= r.start[d] + c * r.step[d] < t.shape[d]);
        }
        lemma_place_bound(t.shape, x, t.shape.len() as int);
        lemma_element_within(src(i), elements(t), es);
    }
    lemma_picked_element(t.data, es, n, src, o);
}

// --- rows -------------------------------------------------------------------------------

/// The row counted from the front.
pub open spec fn front_row(row: int, rows: int) -> int {
    if row < 0 {
        row + rows
    } else {
        row
    }
}

/// **The slice of a row takes that row and no other**: one element along the second dimension, at
/// the row counted from either end, and all of the others.
pub proof fn law_row_slice(shape: Seq<i64>, row: i64)
    requires
        shape.len() == 3,
        count_of(shape) is Some,
        -shape[1] <= row < shape[1],
    ensures
        slice_params_of(shape, seq![row], seq![row_end(row)], Some(seq![1i64]), None) matches Ok(r)
            && r.out == seq![shape[0], 1i64, shape[2]] && r.start == seq![
            0i64,
            front_row(row as int, shape[1] as int) as i64,
            0i64,
        ] && r.step == seq![1i64, 1i64, 1i64],
{
    lemma_count(shape);
    let starts = seq![row];
    let ends = seq![row_end(row)];
    let axes = Some(seq![1i64]);
    let steps = None::<Seq<i64>>;
    assert(lists_match(starts, ends, axes, steps));
    assert forall|i: int| 0 <= i < starts.len() implies #[trigger] entry_ok(shape, axes, steps, i) by {}
    let dim = shape[1] as int;
    let none = ranges(shape, starts, ends, axes, steps, 0);
    let r = ranges(shape, starts, ends, axes, steps, 1);
    assert(range_len(row as int, row_end(row) as int, 1, dim) == 1);
    assert(r.out =~= seq![shape[0], 1i64, shape[2]]);
    assert(r.start =~= seq![0i64, front_row(row as int, dim) as i64, 0i64]);
    assert(r.step =~= seq![1i64, 1i64, 1i64]);
}

/// **The slice of a row is what was gathered**: taking, element by element, the same row everywhere
/// gives the tensor that the slice of that row gives.
pub proof fn law_row_slice_is_gathered(t: TensorView, indices: TensorView, row: i64, u: TensorView)
    requires
        t.shape.len() == 3,
        -t.shape[1] <= row < t.shape[1],
        indices.shape == seq![t.shape[0], 1i64, t.shape[2]],
        gather_elements_of(t, indices, 1) == Ok::<TensorView, Kind>(u),
        forall|i: int|
            0 <= i < ints_of(indices)->Ok_0.len() ==> #[trigger] ints_of(indices)->Ok_0[i] == row,
    ensures
        slice_of(
            t,
            slice_params_of(t.shape, seq![row], seq![row_end(row)], Some(seq![1i64]), None)->Ok_0,
        ) == Ok::<TensorView, Kind>(u),
{
    lemma_sound_len(t);
    lemma_sound_len(indices);
    law_row_slice(t.shape, row);
    let r = slice_params_of(t.shape, seq![row], seq![row_end(row)], Some(seq![1i64]), None)->Ok_0;
    let idx = ints_of(indices)->Ok_0;
    let es = size_of_code(t.dtype) as int;
    let n = idx.len() as int;
    let out = indices.shape;
    let f = |o: int| slice_source(t.shape, r, o);
    let g = |o: int| element_source(t.shape, out, idx, 1, o);
    lemma_count(out);
    assert forall|o: int| 0 <= o < n implies #[trigger] f(o) == g(o) by {
        lemma_nonempty(out);
        let x = |d: int| r.start[d] + coord(r.out, o, d) * r.step[d];
        let y = element_coords(t.shape, out, idx, 1, o);
        let w = |k: int| suffix(t.shape, k + 1);
        assert forall|d: int| 0 <= d < 3 implies (#[trigger] x(d)) * w(d) == y(d) * w(d) by {
            lemma_coord_bound(out, o, d);
            let c = coord(out, o, d);
            assert(c * 1 == c);
            if d == 1 {
                assert(out[1] == 1);
                assert(idx[o] == row);
            }
        }
        lemma_weighted_same(x, w, y, w, 3);
    }
    lemma_picked_same(t.data, es, n, f, g);
}

/// **A row is picked only where it is constant**: the node gathers along the second dimension, its
/// indices are spread by an `Expand` that nobody else reads, and what is spread is one constant
/// number, apart from dimensions added at the front.
pub proof fn law_row_pick(ir: GraphIr, i: int, p: RowPick)
    requires
        row_pick(ir, i) == Some(p),
    ensures
        ir.nodes@[i].op@ == "GatherElements"@,
        ir.nodes@[i].domain@.len() == 0,
        ir.nodes@[i].int_attr("axis"@, 0) == 1,
        ir.nodes@[i].outputs@.len() == 1,
        ir.nodes@[i].input_name(0) != ir.nodes@[i].input_name(1),
        producer_in(ir, ir.nodes@[i].input_name(1)) == Some(p.expand),
        ir.nodes@[p.expand as int].op@ == "Expand"@,
        sole_consumer(ir, ir.nodes@[p.expand as int].output_name(0)) == Some(i as usize),
        scalar_source(ir, ir.nodes@[p.expand as int].input_name(0), 16) == Some(p.row),
{
}

/// A name that is a constant list of one number, made by no `Unsqueeze`, is that number.
pub proof fn law_scalar_source(ir: GraphIr, name: Seq<char>, x: i64)
    requires
        int64_const_of(ir, name) == Some(seq![x]),
        producer_in(ir, name) is None,
    ensures
        scalar_source(ir, name, 16) == Some(x),
        scalar_source(ir, name, 1) == Some(x),
{
}

/// **The slice reads what the selection read, and from where it read it**: the same data, and
/// constants under names of its own; it gives the same value.
pub proof fn law_slice_node(node: NodeIr, was: NodeIr)
    requires
        is_slice_for(node, was),
    ensures
        node.op@ == "Slice"@,
        node.domain@.len() == 0,
        node.inputs@.len() == 4,
        node.inputs@[0]@ == was.input_name(0),
        node.inputs@[1]@ == was.output_name(0) + "__sl_starts"@,
        node.inputs@[2]@ == was.output_name(0) + "__sl_ends"@,
        node.inputs@[3]@ == was.output_name(0) + "__sl_axes"@,
        node.outputs@.len() == 1,
        node.outputs@[0]@ == was.output_name(0),
{
    let ins = texts(node.inputs@);
    let outs = texts(node.outputs@);
    assert(ins.len() == 4 && outs.len() == 1);
    assert(ins[0] == node.inputs@[0]@ && ins[1] == node.inputs@[1]@ && ins[2] == node.inputs@[2]@
        && ins[3] == node.inputs@[3]@);
    assert(outs[0] == node.outputs@[0]@);
}

proof fn lemma_slice_names(a: Seq<char>, b: Seq<char>)
    ensures
        starts_name(a) != ends_name(b),
        starts_name(a) != axes_name(b),
        ends_name(a) != axes_name(b),
        starts_name(a) == starts_name(b) ==> a == b,
        ends_name(a) == ends_name(b) ==> a == b,
        axes_name(a) == axes_name(b) ==> a == b,
{
    reveal_strlit("__sl_starts");
    reveal_strlit("__sl_ends");
    reveal_strlit("__sl_axes");
    let (sa, sb) = (starts_name(a), starts_name(b));
    let (ea, eb) = (ends_name(a), ends_name(b));
    let (xa, xb) = (axes_name(a), axes_name(b));
    assert("__sl_starts"@.len() == 11 && "__sl_ends"@.len() == 9 && "__sl_axes"@.len() == 9);
    assert(sa[sa.len() - 2] == 't');
    assert(eb[eb.len() - 2] == 'd' && ea[ea.len() - 2] == 'd');
    assert(xb[xb.len() - 2] == 'e');
    if sa == sb {
        assert(a =~= sa.take(sa.len() - 11));
        assert(b =~= sb.take(sb.len() - 11));
    }
    if ea == eb {
        assert(a =~= ea.take(ea.len() - 9));
        assert(b =~= eb.take(eb.len() - 9));
    }
    if xa == xb {
        assert(a =~= xa.take(xa.len() - 9));
        assert(b =~= xb.take(xb.len() - 9));
    }
}

/// **The constants of a slice say which row**: it starts at the row, ends behind it, and goes along
/// the second dimension.
pub proof fn law_slice_constants(ir: GraphIr, i: int, k: int, p: RowPick)
    requires
        0 <= i < k <= ir.nodes@.len(),
        row_pick(ir, i) == Some(p),
        forall|j: int|
            i < j < k && #[trigger] row_pick(ir, j) is Some ==> ir.nodes@[j].output_name(0)
                != ir.nodes@[i].output_name(0),
    ensures
        ({
            let out = ir.nodes@[i].output_name(0);
            let c = slice_constants(ir, k);
            &&& c.contains_key(starts_name(out)) && c[starts_name(out)] == int_list(seq![p.row])
            &&& c.contains_key(ends_name(out)) && c[ends_name(out)] == int_list(
                seq![if p.row == -1 { i64::MAX } else { (p.row + 1) as i64 }],
            )
            &&& c.contains_key(axes_name(out)) && c[axes_name(out)] == int_list(seq![1i64])
        }),
    decreases k,
{
    let out = ir.nodes@[i].output_name(0);
    if i < k - 1 {
        law_slice_constants(ir, i, k - 1, p);
        if row_pick(ir, k - 1) is Some {
            let other = ir.nodes@[k - 1].output_name(0);
            lemma_slice_names(out, other);
            lemma_slice_names(other, out);
        }
    } else {
        lemma_slice_names(out, out);
    }
}

// --- masks ------------------------------------------------------------------------------

/// **A mask is removed only where it is constant**: the product is of the masked value and
/// `Unsqueeze(1 + Neg(Cast(Equal(a, b))))` of two constant numbers. Where they differ the mask is
/// one and the value stays; where they are equal it is zero, and zeros take its place.
pub proof fn law_mask(ir: GraphIr, i: int, m: Mask)
    requires
        mask_at(ir, i) == Some(m),
    ensures
        ({
            let nodes = ir.nodes@;
            let node = nodes[i];
            let c = m.chain;
            let cast = nodes[c.cast as int];
            let sum = nodes[c.sum as int];
            &&& node.op@ == "Mul"@ && node.domain@.len() == 0
            &&& node.inputs@.len() == 2
            &&& m.operand == 0 || m.operand == 1
            &&& producer_in(ir, node.input_name(1 - m.operand)) == Some(c.unsqueeze)
            &&& nodes[c.unsqueeze as int].op@ == "Unsqueeze"@
            &&& producer_in(ir, nodes[c.unsqueeze as int].input_name(0)) == Some(c.sum)
            &&& sum.op@ == "Add"@
            &&& (scalar_f32_of(ir, sum.input_name(0)) == Some(0x3f80_0000u32) && producer_in(
                ir,
                sum.input_name(1),
            ) == Some(c.neg)) || (scalar_f32_of(ir, sum.input_name(1)) == Some(0x3f80_0000u32)
                && producer_in(ir, sum.input_name(0)) == Some(c.neg))
            &&& nodes[c.neg as int].op@ == "Neg"@
            &&& producer_in(ir, nodes[c.neg as int].input_name(0)) == Some(c.cast)
            &&& cast.op@ == "Cast"@ && cast.int_attr("to"@, 0) == 1
            &&& constant_equality(ir, cast.input_name(0)) == Some(m.width is Some)
        }),
{
}

/// **Constants are equal where their only elements are.**
pub proof fn law_constant_equality(ir: GraphIr, name: Seq<char>, equal: bool)
    requires
        constant_equality(ir, name) == Some(equal),
    ensures
        producer_in(ir, name) matches Some(e) && ir.nodes@[e as int].op@ == "Equal"@ && (
        int64_const_of(ir, ir.nodes@[e as int].input_name(0)) matches Some(a) && int64_const_of(
            ir,
            ir.nodes@[e as int].input_name(1),
        ) matches Some(b) && a.len() == 1 && b.len() == 1 && equal == (a[0] == b[0])),
{
}

/// **Whoever read a masked value reads what it stands for**: the value beside the mask where the
/// mask is one, zeros where it is zero; all other names stay.
pub proof fn law_mask_reads(ir: GraphIr, k: int, m: Mask, i: int, j: int)
    requires
        0 <= k < ir.nodes@.len(),
        mask_at(ir, k) == Some(m),
        0 <= i < reads_after(ir, k).len(),
        0 <= j < reads_after(ir, k)[i].len(),
    ensures
        ({
            let before = reads_after(ir, k);
            let after = reads_after(ir, k + 1);
            let masked = ir.nodes@[k].output_name(0);
            &&& after.len() == before.len()
            &&& after[i].len() == before[i].len()
            &&& before[i][j] != masked ==> after[i][j] == before[i][j]
            &&& before[i][j] == masked && m.width is None ==> after[i][j] == before[k][m.operand]
            &&& before[i][j] == masked && m.width is Some ==> after[i][j] == masked + "__zeros"@
        }),
{
}

/// The zeros that stand for a value are a row of as many single-precision zeros as the table that
/// was looked up has columns.
pub proof fn law_zero_row(ir: GraphIr, k: int, m: Mask)
    requires
        0 <= k < ir.nodes@.len(),
        mask_at(ir, k) == Some(m),
        m.width is Some,
    ensures
        ({
            let d = m.width->Some_0;
            let z = zero_constants(ir, k + 1);
            let name = ir.nodes@[k].output_name(0) + "__zeros"@;
            &&& z.contains_key(name)
            &&& z[name].dtype == crate::host_ops::FLOAT
            &&& z[name].shape == seq![1i64, d]
            &&& z[name].data.len() == 4 * d
            &&& forall|b: int| 0 <= b < 4 * d ==> #[trigger] z[name].data[b] == 0
        }),
{
}

// --- rearrangements ---------------------------------------------------------------------

/// **A transpose goes only where attention can do its work**: it exchanges the last two of five
/// dimensions between two `Reshape` nodes, its result is read by the second alone, which makes
/// heads of 32, and ends as query or key of an attention.
pub proof fn law_rearrangement(ir: GraphIr, i: int, m: Rearrangement)
    requires
        rearrangement_at(ir, i) == Some(m),
    ensures
        ir.nodes@[i].op@ == "Transpose"@,
        ir.nodes@[i].ints_attr("perm"@) == Some(seq![0i64, 1i64, 2i64, 4i64, 3i64]),
        producer_in(ir, ir.nodes@[i].input_name(0)) matches Some(p) && ir.nodes@[p as int].op@
            == "Reshape"@,
        sole_consumer(ir, ir.nodes@[i].output_name(0)) == Some(m.reshape),
        ir.nodes@[m.reshape as int].op@ == "Reshape"@,
        ir.nodes@[m.reshape as int].input_name(0) == ir.nodes@[i].output_name(0),
        int64_const_of(ir, ir.nodes@[m.reshape as int].input_name(1)) matches Some(s) && s.len() > 0
            && s.last() == 32,
        ir.nodes@[m.attention as int].op@ == "GroupQueryAttention"@,
        ir.nodes@[m.attention as int].domain@ == "com.microsoft"@,
{
}

/// **An attention that is told so rearranges**, and is otherwise what it was; a node that is not
/// told keeps its attributes.
pub proof fn law_told_attention(now: NodeIr, was: NodeIr, first: Seq<char>, is_told: bool)
    requires
        rearranged(now, was, first, is_told),
    ensures
        now.op == was.op,
        now.outputs == was.outputs,
        is_told ==> now.int_attr("qk_reorder"@, 0) == 1,
        !is_told ==> now.int_attr("qk_reorder"@, 0) == was.int_attr("qk_reorder"@, 0),
        forall|name: Seq<char>, d: i64|
            name != "qk_reorder"@ ==> #[trigger] now.int_attr(name, d) == was.int_attr(name, d),
        forall|i: int| 1 <= i < was.inputs@.len() ==> #[trigger] now.inputs@[i] == was.inputs@[i],
        now.inputs@.len() == was.inputs@.len(),
        now.inputs@.len() > 0 ==> now.inputs@[0]@ == first,
{
}

} // verus!
