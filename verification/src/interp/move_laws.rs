//! What kernels that move elements are started with.

use crate::bytes::{all_le32, lemma_all_le32, lemma_all_le32_len, u32_at};
use crate::host_ops::fill::{aligned_stride, clipped_suffix};
use crate::host_ops::FLOAT;
use crate::interp::gather::{
    concat_plan_of, gather_plan_of, join_commands, joined_size, spanned_of, JoinedView,
};
use crate::interp::launch::{fresh_words, lemma_fresh, lemma_reach, told};
use crate::interp::layout::{
    pad_plan_of, pad_table, slice_commands, slice_plan_of, slice_table, split_of, split_plan_of,
    split_start, where_plan_of, where_shape_of, where_table,
};
use crate::interp::map_laws::{in_groups_of_256, one_run, the_run};
use crate::interp::norm::from_front;
use crate::interp::transpose::{
    dim_words, kept_transpose_of, perm_words, permuted, transpose_plan_of,
};
use crate::num::volume_of;
use crate::plan::{CommandView, Kernel, PlanView, ScratchView, Slot, Storage};
use crate::shaders::MAX_RANK;
use crate::shape::product;
use vstd::prelude::*;

verus! {

/// Whether word `i` of a table that is uploaded is `v`, where 32 bits hold it.
pub open spec fn listed(table: Seq<u8>, i: int, v: int) -> bool {
    4 * i + 4 <= table.len() && (0 <= v <= u32::MAX ==> u32_at(table, 4 * i) == v)
}

/// Whether a list of numbers stands in a table from word `at` on.
pub open spec fn lists_all(table: Seq<u8>, at: int, v: Seq<i64>) -> bool {
    forall|d: int| 0 <= d < v.len() ==> listed(table, at + d, #[trigger] v[d] as int)
}

proof fn lemma_listed(words: Seq<u32>, i: int)
    requires
        0 <= i < words.len(),
    ensures
        4 * i + 4 <= all_le32(words).len(),
        u32_at(all_le32(words), 4 * i) == words[i],
{
    lemma_all_le32_len(words);
    lemma_all_le32(words, i);
}

// --- slices -----------------------------------------------------------------------------

/// Whether a table says how a slice is taken: the sizes of the output, then how many elements lie
/// behind each dimension of the input, then where the slice starts and by how much it steps.
pub open spec fn says_slice(
    table: Seq<u8>,
    input: Seq<i64>,
    out: Seq<i64>,
    start: Seq<i64>,
    step: Seq<i64>,
) -> bool {
    let r = input.len() as int;
    &&& table.len() == 16 * r
    &&& lists_all(table, 0, out)
    &&& forall|d: int| 0 <= d < r ==> listed(table, #[trigger] (r + d), clipped_suffix(input, d + 1))
    &&& lists_all(table, 2 * r, start)
    &&& lists_all(table, 3 * r, step)
}

proof fn lemma_slice_table(input: Seq<i64>, out: Seq<i64>, start: Seq<i64>, step: Seq<i64>)
    requires
        out.len() == input.len(),
        start.len() == input.len(),
        step.len() == input.len(),
    ensures
        says_slice(all_le32(slice_table(input, out, start, step)), input, out, start, step),
{
    let words = slice_table(input, out, start, step);
    let r = input.len() as int;
    lemma_all_le32_len(words);
    assert(words.len() == 4 * r);
    assert forall|d: int| 0 <= d < r implies listed(all_le32(words), 0 + d, #[trigger] out[d] as int) by {
        lemma_listed(words, d);
    }
    assert forall|d: int| 0 <= d < r implies listed(
        all_le32(words),
        #[trigger] (r + d),
        clipped_suffix(input, d + 1),
    ) by {
        lemma_listed(words, r + d);
    }
    assert forall|d: int| 0 <= d < r implies listed(
        all_le32(words),
        2 * r + d,
        #[trigger] start[d] as int,
    ) by {
        lemma_listed(words, 2 * r + d);
    }
    assert forall|d: int| 0 <= d < r implies listed(
        all_le32(words),
        3 * r + d,
        #[trigger] step[d] as int,
    ) by {
        lemma_listed(words, 3 * r + d);
    }
}

/// Whether two commands take a slice of the first input into output `j`: the table that says how,
/// and the kernel that reads it.
pub open spec fn takes_slice(
    cmds: Seq<CommandView>,
    j: int,
    input: Seq<i64>,
    out: Seq<i64>,
    start: Seq<i64>,
    step: Seq<i64>,
    n: int,
) -> bool {
    &&& cmds.len() == if n == 0 {
        1int
    } else {
        2
    }
    &&& cmds[0] matches CommandView::Upload(t, bytes) && t == j && says_slice(
        bytes,
        input,
        out,
        start,
        step,
    )
    &&& n != 0 ==> cmds[1] is Run && {
        let d = cmds[1]->Run_0;
        &&& d.kernel == Kernel::Slice
        &&& d.slots == seq![Slot::Input(0), Slot::Scratch(j as usize), Slot::Output(j as usize)]
        &&& d.push.len() == 2
        &&& told(d.push, 0, n)
        &&& told(d.push, 1, input.len() as int)
        &&& in_groups_of_256(d, n)
    }
}

/// **A slice** is taken from the input by starts and steps, into an output of the given sizes.
pub proof fn law_slice_is_started(
    input: Seq<i64>,
    out: Seq<i64>,
    start: Seq<i64>,
    step: Seq<i64>,
    p: PlanView,
)
    requires
        slice_plan_of(input, out, start, step) == Some(p),
        out.len() == input.len(),
        start.len() == input.len(),
        step.len() == input.len(),
    ensures
        ({
            let n = volume_of(out)->Some_0;
            &&& product(out) >= 0 ==> n == product(out)
            &&& p.outputs.len() == 1
            &&& fresh_words(p.outputs[0], FLOAT, out, n)
            &&& p.scratch.len() == 1
            &&& p.scratch[0] matches ScratchView::Temporary(b) && b >= 16 * input.len()
            &&& takes_slice(p.commands, 0, input, out, start, step, n)
        }),
{
    let n = volume_of(out)->Some_0;
    lemma_fresh(FLOAT, n);
    lemma_reach(n, 256);
    lemma_slice_table(input, out, start, step);
}

/// **A split cuts the input into parts behind one another**: output `j` has the size of part `j`
/// along the axis and all of the other dimensions, and starts where the parts before it end.
pub proof fn law_split_is_started(
    shape: Seq<i64>,
    axis: int,
    sizes: Seq<i64>,
    p: PlanView,
    j: int,
)
    requires
        split_of(shape, axis, sizes) == Some(p),
        0 <= axis < shape.len(),
        0 <= j < sizes.len(),
    ensures
        p.outputs.len() == sizes.len(),
        p.scratch.len() == sizes.len(),
        ({
            let out = shape.update(axis, sizes[j]);
            let n = volume_of(out)->Some_0;
            let at = commands_before(shape, axis, sizes, j);
            &&& fresh_words(p.outputs[j], FLOAT, out, n)
            &&& exists|start: Seq<i64>, step: Seq<i64>| #[trigger]
                takes_slice(
                    p.commands.subrange(at, commands_before(shape, axis, sizes, j + 1)),
                    j,
                    shape,
                    out,
                    start,
                    step,
                    n,
                ) && start.len() == shape.len() && step.len() == shape.len() && start[axis] == sum_before(
                    sizes,
                    j,
                ) && (forall|d: int| 0 <= d < shape.len() && d != axis ==> #[trigger] start[d] == 0) && (
                forall|d: int| 0 <= d < shape.len() ==> #[trigger] step[d] == 1)
        }),
{
    lemma_split_at(shape, axis, sizes, sizes.len() as int, j);
}

/// The sum of the first `j` sizes.
pub open spec fn sum_before(sizes: Seq<i64>, j: int) -> int
    decreases j,
{
    if j <= 0 {
        0
    } else {
        sizes[j - 1] + sum_before(sizes, j - 1)
    }
}

/// How many commands the first `j` parts take.
pub open spec fn commands_before(shape: Seq<i64>, axis: int, sizes: Seq<i64>, j: int) -> int
    decreases j,
{
    if j <= 0 {
        0
    } else {
        commands_before(shape, axis, sizes, j - 1) + if volume_of(shape.update(axis, sizes[j - 1]))
            == Some(0int) {
            1int
        } else {
            2
        }
    }
}

proof fn lemma_sum_before(sizes: Seq<i64>, j: int)
    ensures
        sum_before(sizes, j) == split_start(sizes, j),
    decreases j,
{
    if j > 0 {
        lemma_sum_before(sizes, j - 1);
    }
}

proof fn lemma_before_grows(shape: Seq<i64>, axis: int, sizes: Seq<i64>, i: int, j: int)
    requires
        0 <= i <= j,
    ensures
        0 <= commands_before(shape, axis, sizes, i) <= commands_before(shape, axis, sizes, j),
    decreases j,
{
    if i < j {
        lemma_before_grows(shape, axis, sizes, i, j - 1);
    } else if i > 0 {
        lemma_before_grows(shape, axis, sizes, i - 1, j - 1);
    }
}

proof fn lemma_split_at(shape: Seq<i64>, axis: int, sizes: Seq<i64>, k: int, j: int)
    requires
        split_plan_of(shape, axis, sizes, k) is Some,
        0 <= axis < shape.len(),
        0 <= j < k <= sizes.len(),
    ensures
        ({
            let p = split_plan_of(shape, axis, sizes, k)->Some_0;
            let out = shape.update(axis, sizes[j]);
            let n = volume_of(out)->Some_0;
            let at = commands_before(shape, axis, sizes, j);
            let to = commands_before(shape, axis, sizes, j + 1);
            &&& p.outputs.len() == k
            &&& p.scratch.len() == k
            &&& p.commands.len() == commands_before(shape, axis, sizes, k)
            &&& 0 <= at <= to <= p.commands.len()
            &&& volume_of(out) is Some
            &&& fresh_words(p.outputs[j], FLOAT, out, n)
            &&& exists|start: Seq<i64>, step: Seq<i64>| #[trigger]
                takes_slice(p.commands.subrange(at, to), j, shape, out, start, step, n)
                    && start.len() == shape.len() && step.len() == shape.len() && start[axis]
                    == sum_before(sizes, j) && (forall|d: int|
                    0 <= d < shape.len() && d != axis ==> #[trigger] start[d] == 0) && (forall|d: int|
                    0 <= d < shape.len() ==> #[trigger] step[d] == 1)
        }),
    decreases k,
{
    let p = split_plan_of(shape, axis, sizes, k)->Some_0;
    let rest = split_plan_of(shape, axis, sizes, k - 1)->Some_0;
    let last = shape.update(axis, sizes[k - 1]);
    let count = volume_of(last)->Some_0;
    let start = crate::interp::layout::part_start(shape, axis, split_start(sizes, k - 1));
    let step = crate::interp::layout::unit_steps(shape);
    let added = slice_commands(k - 1, shape, last, start, step, count);
    if k > 1 {
        lemma_split_at(shape, axis, sizes, k - 1, if j < k - 1 { j } else { 0 });
    }
    let at = commands_before(shape, axis, sizes, j);
    let to = commands_before(shape, axis, sizes, j + 1);
    lemma_before_grows(shape, axis, sizes, j, j + 1);
    lemma_before_grows(shape, axis, sizes, j + 1, k);
    if j < k - 1 {
        lemma_before_grows(shape, axis, sizes, j + 1, k - 1);
        assert(p.commands.subrange(at, to) =~= rest.commands.subrange(at, to));
    } else {
        lemma_slice_table(shape, last, start, step);
        lemma_fresh(FLOAT, count);
        lemma_reach(count, 256);
        lemma_sum_before(sizes, j);
        lemma_start_fits(shape, axis, sizes, k);
        assert(p.commands.subrange(at, to) =~= added);
        assert(takes_slice(added, j, shape, last, start, step, count));
    }
}

proof fn lemma_start_fits(shape: Seq<i64>, axis: int, sizes: Seq<i64>, k: int)
    requires
        split_plan_of(shape, axis, sizes, k) is Some,
        k >= 1,
    ensures
        i64::MIN <= split_start(sizes, k - 1) <= i64::MAX,
{
    if k > 1 {
        assert(split_plan_of(shape, axis, sizes, k - 1) is Some);
    }
}

// --- padding ----------------------------------------------------------------------------

/// **A padding** makes every dimension larger by what is added at its beginning and at its end;
/// the kernel is told, by a table, of the sizes of the output, of what is added at the beginning,
/// and of the input, and of the value that it fills with.
pub proof fn law_pad_is_started(
    shape: Seq<i64>,
    begins: Seq<i64>,
    ends: Seq<i64>,
    value: u32,
    p: PlanView,
)
    requires
        pad_plan_of(shape, begins, ends, value) == Some(p),
    ensures
        begins.len() == shape.len(),
        ends.len() == shape.len(),
        p.outputs.len() == 1,
        ({
            let out = p.outputs[0].shape;
            let r = shape.len() as int;
            let n = volume_of(out)->Some_0;
            &&& out.len() == r
            &&& forall|d: int| 0 <= d < r ==> #[trigger] out[d] == shape[d] + begins[d] + ends[d]
            &&& product(out) >= 0 ==> n == product(out)
            &&& fresh_words(p.outputs[0], FLOAT, out, n)
            &&& p.commands.len() == if n == 0 {
                1int
            } else {
                2
            }
            &&& p.scratch.len() == 1
            &&& p.scratch[0] matches ScratchView::Temporary(b) && b >= 4 * (1 + 4 * r)
            &&& p.commands[0] matches CommandView::Upload(t, table) && {
                &&& t == 0
                &&& listed(table, 0, r)
                &&& lists_all(table, 1, out)
                &&& lists_all(table, 1 + r, begins)
                &&& lists_all(table, 1 + 2 * r, shape)
                &&& forall|d: int|
                    0 <= d < r ==> listed(
                        table,
                        #[trigger] (1 + 3 * r + d),
                        clipped_suffix(shape, d + 1),
                    )
            }
            &&& n > 0 ==> p.commands[1] is Run && {
                let d = p.commands[1]->Run_0;
                &&& d.kernel == Kernel::Pad
                &&& d.slots == seq![Slot::Input(0), Slot::Scratch(0), Slot::Output(0)]
                &&& d.push.len() == 3
                &&& told(d.push, 0, n)
                &&& told(d.push, 1, r)
                &&& d.push[2] == value
                &&& in_groups_of_256(d, n)
            }
        }),
{
    let out = p.outputs[0].shape;
    let r = shape.len() as int;
    let n = volume_of(out)->Some_0;
    let words = pad_table(shape, begins, out);
    let table = all_le32(words);
    assert forall|d: int| 0 <= d < r implies #[trigger] out[d] == shape[d] + begins[d] + ends[d] by {
        assert(crate::num::in_range(shape[d] + begins[d] + ends[d]));
    }
    lemma_fresh(FLOAT, n);
    lemma_reach(n, 256);
    lemma_all_le32_len(words);
    assert(words.len() == 1 + 4 * r);
    lemma_listed(words, 0);
    assert forall|d: int| 0 <= d < r implies listed(table, 1 + d, #[trigger] out[d] as int) by {
        lemma_listed(words, 1 + d);
    }
    assert forall|d: int| 0 <= d < r implies listed(table, 1 + r + d, #[trigger] begins[d] as int) by {
        lemma_listed(words, 1 + r + d);
    }
    assert forall|d: int| 0 <= d < r implies listed(table, 1 + 2 * r + d, #[trigger] shape[d] as int) by {
        lemma_listed(words, 1 + 2 * r + d);
    }
    assert forall|d: int| 0 <= d < r implies listed(
        table,
        #[trigger] (1 + 3 * r + d),
        clipped_suffix(shape, d + 1),
    ) by {
        lemma_listed(words, 1 + 3 * r + d);
    }
}

// --- choices ----------------------------------------------------------------------------

/// **A choice** takes the condition, what is chosen where it holds and what is chosen where it does
/// not, in this order; a table says how to walk each of the three.
pub proof fn law_where_is_started(c: Seq<i64>, x: Seq<i64>, y: Seq<i64>, p: PlanView)
    requires
        where_plan_of(c, x, y) == Some(p),
    ensures
        where_shape_of(c, x, y) is Some,
        ({
            let out = where_shape_of(c, x, y)->Some_0;
            let r = out.len() as int;
            let n = volume_of(out)->Some_0;
            &&& product(out) >= 0 ==> n == product(out)
            &&& p.outputs.len() == 1
            &&& fresh_words(p.outputs[0], FLOAT, out, n)
            &&& p.scratch.len() == 1
            &&& p.scratch[0] matches ScratchView::Temporary(b) && b >= 4 * (1 + 4 * r)
            &&& p.commands.len() == if n == 0 {
                1int
            } else {
                2
            }
            &&& p.commands[0] matches CommandView::Upload(t, table) && {
                &&& t == 0
                &&& listed(table, 0, r)
                &&& lists_all(table, 1, out)
                &&& forall|k: int|
                    0 <= k < r ==> listed(table, #[trigger] (1 + r + k), aligned_stride(c, out, k))
                &&& forall|k: int|
                    0 <= k < r ==> listed(
                        table,
                        #[trigger] (1 + 2 * r + k),
                        aligned_stride(x, out, k),
                    )
                &&& forall|k: int|
                    0 <= k < r ==> listed(
                        table,
                        #[trigger] (1 + 3 * r + k),
                        aligned_stride(y, out, k),
                    )
            }
            &&& n > 0 ==> p.commands[1] is Run && {
                let d = p.commands[1]->Run_0;
                &&& d.kernel == Kernel::Where
                &&& d.slots == seq![
                    Slot::Input(0),
                    Slot::Input(1),
                    Slot::Input(2),
                    Slot::Output(0),
                    Slot::Scratch(0),
                ]
                &&& d.push.len() == 1
                &&& told(d.push, 0, n)
                &&& in_groups_of_256(d, n)
            }
        }),
{
    let out = where_shape_of(c, x, y)->Some_0;
    let r = out.len() as int;
    let n = volume_of(out)->Some_0;
    let words = where_table(c, x, y, out);
    let table = all_le32(words);
    lemma_fresh(FLOAT, n);
    lemma_reach(n, 256);
    lemma_all_le32_len(words);
    assert(words.len() == 1 + 4 * r);
    lemma_listed(words, 0);
    assert forall|k: int| 0 <= k < r implies listed(table, 1 + k, #[trigger] out[k] as int) by {
        lemma_listed(words, 1 + k);
    }
    assert forall|k: int| 0 <= k < r implies listed(
        table,
        #[trigger] (1 + r + k),
        aligned_stride(c, out, k),
    ) by {
        lemma_listed(words, 1 + r + k);
    }
    assert forall|k: int| 0 <= k < r implies listed(
        table,
        #[trigger] (1 + 2 * r + k),
        aligned_stride(x, out, k),
    ) by {
        lemma_listed(words, 1 + 2 * r + k);
    }
    assert forall|k: int| 0 <= k < r implies listed(
        table,
        #[trigger] (1 + 3 * r + k),
        aligned_stride(y, out, k),
    ) by {
        lemma_listed(words, 1 + 3 * r + k);
    }
}

// --- gathering and joining --------------------------------------------------------------

/// **A gathering** puts the shape of the indices in the place of the axis; the indices are listed
/// counted from the front, and the kernel is told how many elements lie behind the axis, how many
/// indices there are, and how large the axis is.
pub proof fn law_gather_is_started(
    data: Seq<i64>,
    axis: i64,
    index_shape: Seq<i64>,
    indices: Seq<i64>,
    p: PlanView,
)
    requires
        gather_plan_of(data, axis, index_shape, indices) == Some(p),
    ensures
        ({
            let a = from_front(axis, data.len() as int);
            let behind = product(data.skip(a + 1));
            let ahead = product(data.take(a));
            let n = p.outputs[0].elem_count;
            &&& 0 <= a < data.len()
            &&& p.outputs.len() == 1
            &&& fresh_words(
                p.outputs[0],
                FLOAT,
                data.take(a) + index_shape + data.skip(a + 1),
                n,
            )
            &&& behind >= 0 && ahead >= 0 ==> n == ahead * indices.len() * behind
            &&& p.scratch.len() == 1
            &&& p.scratch[0] matches ScratchView::Temporary(b) && b >= 4 * indices.len()
            &&& p.commands.len() == if n == 0 {
                1int
            } else {
                2
            }
            &&& p.commands[0] matches CommandView::Upload(t, table) && {
                &&& t == 0
                &&& table.len() == 4 * indices.len()
                &&& forall|i: int|
                    0 <= i < indices.len() ==> listed(
                        table,
                        i,
                        if #[trigger] indices[i] < 0 {
                            indices[i] + data[a]
                        } else {
                            indices[i] as int
                        },
                    )
            }
            &&& n > 0 ==> p.commands[1] is Run && {
                let d = p.commands[1]->Run_0;
                &&& d.kernel == Kernel::Gather
                &&& d.slots == seq![Slot::Input(0), Slot::Scratch(0), Slot::Output(0)]
                &&& d.push.len() == 4
                &&& told(d.push, 0, n)
                &&& behind >= 0 ==> told(d.push, 1, behind)
                &&& told(d.push, 2, indices.len() as int)
                &&& told(d.push, 3, data[a] as int)
                &&& in_groups_of_256(d, n)
            }
        }),
{
    let a = from_front(axis, data.len() as int);
    let n = p.outputs[0].elem_count;
    let inner = spanned_of(data.skip(a + 1))->Some_0;
    let outer = spanned_of(data.take(a))->Some_0;
    let count = indices.len() as int;
    assert(outer * count * inner >= 0) by (nonlinear_arith)
        requires
            outer >= 0,
            count >= 0,
            inner >= 0,
    ;
    lemma_fresh(FLOAT, n);
    lemma_reach(n, 256);
    let words = crate::interp::gather::index_words(indices, data[a]);
    lemma_all_le32_len(words);
    assert forall|i: int| 0 <= i < indices.len() implies listed(
        all_le32(words),
        i,
        if #[trigger] indices[i] < 0 {
            indices[i] + data[a]
        } else {
            indices[i] as int
        },
    ) by {
        lemma_listed(words, i);
    }
}

/// The size of the first `k` parts together along an axis.
pub open spec fn size_before(parts: Seq<JoinedView>, axis: int, k: int) -> int
    decreases k,
{
    if k <= 0 {
        0
    } else {
        (if parts[k - 1].shape[axis] < 0 {
            0
        } else {
            parts[k - 1].shape[axis] as int
        }) + size_before(parts, axis, k - 1)
    }
}

/// Whether a command puts a part of a joined tensor where it belongs.
pub open spec fn puts_part(
    cmd: CommandView,
    part: JoinedView,
    axis: int,
    behind: int,
    size: int,
    from: int,
) -> bool {
    cmd matches CommandView::Run(d) && {
        &&& d.kernel == Kernel::Concat
        &&& d.slots == seq![Slot::Input(part.input), Slot::Output(0)]
        &&& d.push.len() == 5
        &&& told(d.push, 0, part.elem_count)
        &&& told(d.push, 1, behind)
        &&& part.shape[axis] >= 0 ==> told(d.push, 2, part.shape[axis] as int)
        &&& told(d.push, 3, size)
        &&& told(d.push, 4, from)
        &&& in_groups_of_256(d, part.elem_count)
    }
}

/// **A concatenation puts its parts behind one another along the axis**, each where those before
/// it end; the axis is as large as all of them together, and every part with elements is put.
pub proof fn law_concat_is_started(parts: Seq<JoinedView>, axis: i64, p: PlanView, j: int)
    requires
        concat_plan_of(parts, axis) == Some(p),
        0 <= j < parts.len(),
    ensures
        ({
            let base = parts[0].shape;
            let a = from_front(axis, base.len() as int);
            let size = size_before(parts, a, parts.len() as int);
            let out = base.update(a, size as i64);
            let behind = volume_of(base.skip(a + 1))->Some_0;
            &&& 0 <= a < base.len()
            &&& 0 <= size <= i64::MAX
            &&& p.outputs.len() == 1
            &&& p.scratch.len() == 0
            &&& fresh_words(p.outputs[0], FLOAT, out, p.outputs[0].elem_count)
            &&& product(out) >= 0 ==> p.outputs[0].elem_count == product(out)
            &&& product(base.skip(a + 1)) >= 0 ==> behind == product(base.skip(a + 1))
            &&& parts[j].elem_count != 0 ==> exists|i: int|
                0 <= i < p.commands.len() && puts_part(
                    #[trigger] p.commands[i],
                    parts[j],
                    a,
                    behind,
                    size,
                    size_before(parts, a, j),
                )
            &&& p.commands.len() <= parts.len()
        }),
{
    let base = parts[0].shape;
    let a = from_front(axis, base.len() as int);
    lemma_size_before(parts, a, parts.len() as int);
    lemma_size_before(parts, a, j);
    let behind = volume_of(base.skip(a + 1))->Some_0;
    let size = size_before(parts, a, parts.len() as int);
    lemma_fresh(FLOAT, p.outputs[0].elem_count);
    lemma_puts(parts, a, behind, size, parts.len() as int, j);
    let all = join_commands(parts, a, behind, size, parts.len() as int);
    assert(p.commands == all);
    if parts[j].elem_count != 0 {
        let i = choose|i: int|
            0 <= i < all.len() && puts_part(
                #[trigger] all[i],
                parts[j],
                a,
                behind,
                size,
                size_before(parts, a, j),
            );
        assert(puts_part(p.commands[i], parts[j], a, behind, size, size_before(parts, a, j)));
    }
}

proof fn lemma_size_before(parts: Seq<JoinedView>, axis: int, k: int)
    ensures
        size_before(parts, axis, k) == joined_size(parts, axis, k),
        size_before(parts, axis, k) >= 0,
    decreases k,
{
    if k > 0 {
        lemma_size_before(parts, axis, k - 1);
    }
}

proof fn lemma_puts(parts: Seq<JoinedView>, axis: int, behind: int, size: int, k: int, j: int)
    requires
        0 <= j < k <= parts.len(),
    ensures
        join_commands(parts, axis, behind, size, k).len() <= k,
        parts[j].elem_count != 0 ==> exists|i: int|
            0 <= i < join_commands(parts, axis, behind, size, k).len() && puts_part(
                #[trigger] join_commands(parts, axis, behind, size, k)[i],
                parts[j],
                axis,
                behind,
                size,
                size_before(parts, axis, j),
            ),
    decreases k,
{
    let rest = join_commands(parts, axis, behind, size, k - 1);
    let all = join_commands(parts, axis, behind, size, k);
    if k > 1 {
        lemma_puts(parts, axis, behind, size, k - 1, if j < k - 1 { j } else { 0 });
    } else {
        assert(rest.len() == 0);
    }
    if j < k - 1 {
        if parts[j].elem_count != 0 {
            let i = choose|i: int|
                0 <= i < rest.len() && puts_part(
                    #[trigger] rest[i],
                    parts[j],
                    axis,
                    behind,
                    size,
                    size_before(parts, axis, j),
                );
            assert(all[i] == rest[i]);
        }
    } else if parts[j].elem_count != 0 {
        lemma_size_before(parts, axis, j);
        lemma_reach(parts[j].elem_count, 256);
        assert(puts_part(
            all[rest.len() as int],
            parts[j],
            axis,
            behind,
            size,
            size_before(parts, axis, j),
        ));
    }
}

// --- transposition ----------------------------------------------------------------------

/// **A transposition** gives dimension `d` of the result the size of dimension `perm[d]` of the
/// input, and the kernel steps along it by as many elements as lie behind that dimension.
pub proof fn law_transpose_is_started(dtype: i32, shape: Seq<i64>, perm: Seq<usize>, p: PlanView)
    requires
        transpose_plan_of(dtype, shape, perm) == Some(p),
        forall|d: int| 0 <= d < shape.len() ==> 0 <= #[trigger] shape[d],
    ensures
        perm.len() == shape.len(),
        shape.len() <= MAX_RANK,
        p.outputs.len() == 1,
        ({
            let out = p.outputs[0].shape;
            let n = p.outputs[0].elem_count;
            let d = the_run(p);
            &&& out.len() == shape.len()
            &&& forall|k: int| 0 <= k < out.len() ==> #[trigger] out[k] == shape[perm[k] as int]
            &&& p.outputs[0].dtype == dtype
            &&& p.outputs[0].storage is New
            &&& product(out) >= 0 ==> n == product(out)
            &&& one_run(p, n)
            &&& n > 0 ==> {
                &&& d.kernel == Kernel::Transpose
                &&& d.slots == seq![Slot::Input(0), Slot::Output(0)]
                &&& d.push.len() == 4 + 2 * MAX_RANK
                &&& told(d.push, 0, n)
                &&& told(d.push, 1, shape.len() as int)
                &&& forall|k: int|
                    0 <= k < out.len() ==> told(d.push, #[trigger] (4 + k), out[k] as int)
                &&& forall|k: int|
                    0 <= k < out.len() ==> told(
                        d.push,
                        #[trigger] (4 + MAX_RANK + k),
                        clipped_suffix(shape, perm[k] + 1),
                    )
                &&& in_groups_of_256(d, n)
            }
        }),
{
    let out = permuted(shape, perm);
    let n = p.outputs[0].elem_count;
    lemma_reach(n, 256);
    if n > 0 {
        let d = the_run(p);
        let dims = dim_words(out);
        let steps = perm_words(shape, perm);
        assert(dims.len() == MAX_RANK && steps.len() == MAX_RANK);
        assert forall|k: int| 0 <= k < out.len() implies told(
            d.push,
            #[trigger] (4 + k),
            out[k] as int,
        ) by {
            assert(d.push[4 + k] == dims[k]);
        }
        assert forall|k: int| 0 <= k < out.len() implies told(
            d.push,
            #[trigger] (4 + MAX_RANK + k),
            clipped_suffix(shape, perm[k] + 1),
        ) by {
            assert(d.push[4 + MAX_RANK + k] == steps[k]);
        }
    }
}

/// **A kept transposition** has rows and columns exchanged, lies in the buffer that is kept under
/// a name of its own, and is filled where its bytes are given.
pub proof fn law_kept_transpose_is_started(
    name: Seq<char>,
    dtype: i32,
    shape: Seq<i64>,
    data: Option<Seq<u8>>,
    p: PlanView,
)
    requires
        kept_transpose_of(name, dtype, shape, data) == Some(p),
        shape.len() == 2,
    ensures
        p.outputs.len() == 1,
        p.outputs[0].dtype == dtype,
        p.outputs[0].shape == seq![shape[1], shape[0]],
        p.outputs[0].storage == Storage::Scratch(0),
        product(shape) >= 0 ==> p.outputs[0].elem_count == shape[0] * shape[1],
        p.scratch.len() == 1,
        p.scratch[0] matches ScratchView::Kept(key, b) && name.is_prefix_of(key.name) && key.name
            != name && key.rows == shape[0] && key.cols == shape[1],
        match data {
            Some(d) if d.len() > 0 => p.commands == seq![CommandView::Upload(0, d)],
            _ => p.commands.len() == 0,
        },
{
    crate::interp::product_laws::lemma_product_of_two(shape);
    reveal_strlit("#transposed");
    let tail = "#transposed"@ + crate::text::signed_digits(dtype as int);
    let full = name + "#transposed"@ + crate::text::signed_digits(dtype as int);
    assert(full =~= name + tail);
    assert(name =~= full.subrange(0, name.len() as int));
    assert(full.len() > name.len());
}

} // verus!
