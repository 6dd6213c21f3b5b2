//! Moving elements on the device: joining, picking, padding, cutting.

use crate::bytes::{all_le32, lemma_all_le32_len};
use crate::error::{backend_error, Kind, Result};
use crate::graph::NodeIr;
use crate::host_ops::fill::{
    aligned_stride, bcast_strides, clipped_suffix, row_major_strides, strides_fit, strides_held,
};
use crate::host_ops::FLOAT;
use crate::interp::norm::{axis_of, front};
use crate::interp::window::section;
use crate::num::{ceil_div, groups, in_range, narrowed, size_word, volume, volume_of, w32, word};
use crate::plan::{
    assembled, output, output_of, planned, push_bytes, run, run_of, Command, CommandView, Kernel,
    Plan, PlanView, Produced, Scratch, ScratchView, Slot,
};
use crate::shape::{broadcast, joins, joint_shape};
use vstd::prelude::*;

verus! {

// --- tables of parameters ---------------------------------------------------------------

/// The low words of a list.
pub open spec fn words_of(v: Seq<i64>) -> Seq<u32> {
    v.map_values(|d: i64| w32(d as int))
}

fn extend_words(words: &mut Vec<u32>, v: &[i64])
    ensures
        final(words)@ == old(words)@ + words_of(v@),
{
    let n: usize = v.len();
    let ghost was = words@;
    let mut i: usize = 0;
    assert(was + words_of(v@).take(0) =~= was);
    while i < n
        invariant
            i <= n,
            n == v@.len(),
            words@ == was + words_of(v@).take(i as int),
        decreases n - i,
    {
        words.push(word(v[i]));
        assert(words@ =~= was + words_of(v@).take(i + 1));
        i += 1;
    }
    assert(words_of(v@).take(n as int) =~= words_of(v@));
}

/// The bytes of a buffer for a table of parameters.
pub open spec fn table_bytes(words: Seq<u32>) -> int {
    if words.len() == 0 {
        4
    } else {
        4 * (words.len() as int)
    }
}

/// A temporary buffer with a table of parameters, and the command that fills it.
pub fn table(i: usize, words: &Vec<u32>) -> (r: (Scratch, Command))
    ensures
        r.0@ == ScratchView::Temporary(table_bytes(words@)),
        r.1@ == CommandView::Upload(i as int, all_le32(words@)),
{
    let bytes = push_bytes(words.as_slice());
    proof {
        lemma_all_le32_len(words@);
    }
    let n: usize = bytes.len();
    (
        Scratch::Temporary(
            if n == 0 {
                4
            } else {
                n as u64
            },
        ),
        Command::Upload(i, bytes),
    )
}

// --- Slice ------------------------------------------------------------------------------

/// The parameters of a slice: for each dimension of the output its size, then for each of the
/// input its stride, then the starts, then the steps.
pub open spec fn slice_table(
    input: Seq<i64>,
    out: Seq<i64>,
    start: Seq<i64>,
    step: Seq<i64>,
) -> Seq<u32> {
    words_of(out) + Seq::new(input.len(), |d: int| w32(clipped_suffix(input, d + 1))) + words_of(
        start,
    ) + words_of(step)
}

/// Output `j` of a plan as a slice of the first input, with its table in `Scratch(j)`.
pub open spec fn slice_commands(
    j: int,
    input: Seq<i64>,
    out: Seq<i64>,
    start: Seq<i64>,
    step: Seq<i64>,
    n: int,
) -> Seq<CommandView> {
    let upload = CommandView::Upload(j, all_le32(slice_table(input, out, start, step)));
    if n == 0 {
        seq![upload]
    } else {
        seq![
            upload,
            run_of(
                Kernel::Slice,
                seq![Slot::Input(0), Slot::Scratch(j as usize), Slot::Output(j as usize)],
                seq![w32(n), w32(input.len() as int)],
                ceil_div(w32(n) as int, 256),
                1,
                1,
            ),
        ]
    }
}

/// Appends output `j` as a slice of the first input.
fn push_slice(
    outputs: &mut Vec<Produced>,
    scratch: &mut Vec<Scratch>,
    commands: &mut Vec<Command>,
    j: usize,
    input: &[i64],
    out: Vec<i64>,
    start: &[i64],
    step: &[i64],
) -> (r: Result<()>)
    requires
        strides_fit(input@),
    ensures
        match (r, volume_of(out@)) {
            (Ok(_), Some(n)) => {
                &&& output_of(FLOAT, out@, n) is Some
                &&& final(outputs)@.map_values(|p: Produced| p@) == old(outputs)@.map_values(
                    |p: Produced| p@,
                ).push(output_of(FLOAT, out@, n)->Some_0)
                &&& final(scratch)@.map_values(|s: Scratch| s@) == old(scratch)@.map_values(
                    |s: Scratch| s@,
                ).push(
                    ScratchView::Temporary(
                        table_bytes(slice_table(input@, out@, start@, step@)),
                    ),
                )
                &&& final(commands)@.map_values(|c: Command| c@) == old(commands)@.map_values(
                    |c: Command| c@,
                ) + slice_commands(j as int, input@, out@, start@, step@, n)
            },
            (Err(e), Some(n)) => output_of(FLOAT, out@, n) is None && e.kind() == Kind::Backend,
            (Err(e), None) => e.kind() == Kind::Backend,
            _ => false,
        },
{
    let ghost o = out@;
    let ghost before = (
        outputs@.map_values(|p: Produced| p@),
        scratch@.map_values(|s: Scratch| s@),
        commands@.map_values(|c: Command| c@),
    );
    let rank: usize = input.len();
    let strides = row_major_strides(input);
    let n: usize = match volume(out.as_slice()) {
        Some(n) => n,
        None => {
            return Err(backend_error("the output is too large"));
        },
    };
    let mut words: Vec<u32> = Vec::new();
    extend_words(&mut words, out.as_slice());
    extend_words(&mut words, strides.as_slice());
    extend_words(&mut words, start);
    extend_words(&mut words, step);
    proof {
        assert(words_of(strides@) =~= Seq::new(
            input@.len(),
            |d: int| w32(clipped_suffix(input@, d + 1)),
        ));
        assert(words@ =~= slice_table(input@, o, start@, step@));
    }
    let (buffer, upload) = table(j, &words);
    let ghost (bv, uv) = (buffer@, upload@);
    let produced: Produced = match output(FLOAT, out, n) {
        Ok(p) => p,
        Err(e) => {
            return Err(e);
        },
    };
    let ghost pv = produced@;
    outputs.push(produced);
    scratch.push(buffer);
    commands.push(upload);
    if n > 0 {
        let slots: Vec<Slot> = vec![Slot::Input(0), Slot::Scratch(j), Slot::Output(j)];
        assert(slots@ =~= seq![Slot::Input(0), Slot::Scratch(j), Slot::Output(j)]);
        let push: Vec<u32> = vec![size_word(n), size_word(rank)];
        assert(push@ =~= seq![w32(n as int), w32(rank as int)]);
        commands.push(run(Kernel::Slice, slots, push, groups(size_word(n), 256), 1, 1));
    }
    proof {
        assert(outputs@.map_values(|p: Produced| p@) =~= before.0.push(pv));
        assert(scratch@.map_values(|s: Scratch| s@) =~= before.1.push(bv));
        assert(commands@.map_values(|c: Command| c@) =~= before.2 + slice_commands(
            j as int,
            input@,
            o,
            start@,
            step@,
            n as int,
        ));
    }
    Ok(())
}

/// The plan of a slice.
pub open spec fn slice_plan_of(
    input: Seq<i64>,
    out: Seq<i64>,
    start: Seq<i64>,
    step: Seq<i64>,
) -> Option<PlanView> {
    if !strides_fit(input) {
        None
    } else {
        match volume_of(out) {
            None => None,
            Some(n) => match output_of(FLOAT, out, n) {
                None => None,
                Some(p) => Some(
                    PlanView {
                        outputs: seq![p],
                        scratch: seq![
                            ScratchView::Temporary(
                                table_bytes(slice_table(input, out, start, step)),
                            ),
                        ],
                        commands: slice_commands(0, input, out, start, step, n),
                    },
                ),
            },
        }
    }
}

/// Plans a slice along resolved ranges.
pub fn slice_device(input: &[i64], out: Vec<i64>, start: &[i64], step: &[i64]) -> (r: Result<Plan>)
    ensures
        planned(r, slice_plan_of(input@, out@, start@, step@)),
{
    let ghost o = out@;
    if !strides_held(input) {
        return Err(backend_error("the input is too large"));
    }
    let mut outputs: Vec<Produced> = Vec::new();
    let mut scratch: Vec<Scratch> = Vec::new();
    let mut commands: Vec<Command> = Vec::new();
    match push_slice(&mut outputs, &mut scratch, &mut commands, 0, input, out, start, step) {
        Ok(_) => {},
        Err(e) => {
            return Err(e);
        },
    }
    let plan = assembled(outputs, scratch, commands);
    proof {
        let want = slice_plan_of(input@, o, start@, step@)->Some_0;
        assert(plan@.outputs =~= want.outputs);
        assert(plan@.scratch =~= want.scratch);
        assert(plan@.commands =~= want.commands);
    }
    Ok(plan)
}

// --- Split ------------------------------------------------------------------------------

/// Where part `j` of a split begins.
pub open spec fn split_start(sizes: Seq<i64>, j: int) -> int
    decreases j,
{
    if j <= 0 {
        0
    } else {
        split_start(sizes, j - 1) + sizes[j - 1]
    }
}

/// The axis and the sizes of a split: an attribute or an input gives the sizes, otherwise the
/// parts are equal.
pub open spec fn split_sizes_of(
    node: NodeIr,
    shape: Seq<i64>,
    given: Option<Seq<i64>>,
) -> Option<(int, Seq<i64>)> {
    let n = node.outputs@.len();
    match axis_of(node.int_attr("axis"@, 0), shape.len() as int) {
        None => None,
        Some(a) => {
            let sizes = match node.ints_attr("split"@) {
                Some(s) => Some(s),
                None => match given {
                    Some(s) => Some(s),
                    None => if n > 0 && n <= i64::MAX && crate::host_ops::arith::remainder(
                        shape[a] as int,
                        n as int,
                    ) == 0 {
                        Some(
                            Seq::new(
                                n,
                                |i: int|
                                    crate::host_ops::arith::quotient(
                                        shape[a] as int,
                                        n as int,
                                    ) as i64,
                            ),
                        )
                    } else {
                        None
                    },
                },
            };
            match sizes {
                Some(s) => if s.len() == n {
                    Some((a, s))
                } else {
                    None
                },
                None => None,
            }
        },
    }
}

pub open spec fn optional_list(v: Option<&[i64]>) -> Option<Seq<i64>> {
    match v {
        Some(s) => Some(s@),
        None => None,
    }
}

/// The axis and the sizes of a split; `given` holds the elements of the optional input.
pub fn split_sizes(node: &NodeIr, shape: &[i64], given: Option<&[i64]>) -> (r: Result<
    (usize, Vec<i64>),
>)
    ensures
        match (r, split_sizes_of(*node, shape@, optional_list(given))) {
            (Ok((a, s)), Some((av, sv))) => a == av && s@ == sv,
            (Err(e), None) => e.kind() == Kind::Backend,
            _ => false,
        },
{
    let n: usize = node.outputs.len();
    let axis: usize = match front(node.attr_i64("axis", 0), shape.len()) {
        Some(a) => a,
        None => {
            return Err(backend_error("the axis is not one of the tensor's"));
        },
    };
    let dim: i64 = shape[axis];
    let sizes: Vec<i64> = match node.attr_ints("split") {
        Some(s) => {
            let c = section(s, 0, s.len());
            assert(c@ =~= s@);
            c
        },
        None => match given {
            Some(s) => {
                let c = section(s, 0, s.len());
                assert(c@ =~= s@);
                c
            },
            None => {
                if n == 0 || n as u64 > i64::MAX as u64 {
                    return Err(backend_error("there is no output"));
                }
                if crate::host_ops::arith::remainder_of(dim, n as i64) != 0 {
                    return Err(backend_error("the dimension does not divide among the outputs"));
                }
                let part: i64 = crate::host_ops::arith::divide(dim, n as i64);
                let c = crate::interp::window::repeat(part, n);
                assert(c@ =~= Seq::new(n as nat, |i: int| part));
                c
            },
        },
    };
    if sizes.len() != n {
        return Err(backend_error("as many sizes as outputs are needed"));
    }
    Ok((axis, sizes))
}

/// The shape of a part.
pub open spec fn part_shape(shape: Seq<i64>, axis: int, size: i64) -> Seq<i64> {
    shape.update(axis, size)
}

/// Where a part begins in each dimension.
pub open spec fn part_start(shape: Seq<i64>, axis: int, start: int) -> Seq<i64> {
    Seq::new(shape.len(), |d: int| 0i64).update(axis, start as i64)
}

pub open spec fn unit_steps(shape: Seq<i64>) -> Seq<i64> {
    Seq::new(shape.len(), |d: int| 1i64)
}

/// The plan of the first `k` parts of a split, each a slice of the input.
pub open spec fn split_plan_of(shape: Seq<i64>, axis: int, sizes: Seq<i64>, k: int) -> Option<
    PlanView,
>
    decreases k,
{
    if k <= 0 {
        Some(
            PlanView { outputs: Seq::empty(), scratch: Seq::empty(), commands: Seq::empty() },
        )
    } else {
        let out = part_shape(shape, axis, sizes[k - 1]);
        let start = part_start(shape, axis, split_start(sizes, k - 1));
        match (split_plan_of(shape, axis, sizes, k - 1), volume_of(out)) {
            (Some(rest), Some(n)) => match output_of(FLOAT, out, n) {
                None => None,
                Some(p) => if !in_range(split_start(sizes, k)) {
                    None
                } else {
                    Some(
                        PlanView {
                            outputs: rest.outputs.push(p),
                            scratch: rest.scratch.push(
                                ScratchView::Temporary(
                                    table_bytes(
                                        slice_table(shape, out, start, unit_steps(shape)),
                                    ),
                                ),
                            ),
                            commands: rest.commands + slice_commands(
                                k - 1,
                                shape,
                                out,
                                start,
                                unit_steps(shape),
                                n,
                            ),
                        },
                    )
                },
            },
            _ => None,
        }
    }
}

/// The plan of a split of floating-point numbers.
pub open spec fn split_of(shape: Seq<i64>, axis: int, sizes: Seq<i64>) -> Option<PlanView> {
    if strides_fit(shape) {
        split_plan_of(shape, axis, sizes, sizes.len() as int)
    } else {
        None
    }
}

proof fn lemma_split_stops(shape: Seq<i64>, axis: int, sizes: Seq<i64>, k: int, n: int)
    requires
        k <= n,
        split_plan_of(shape, axis, sizes, k) is None,
    ensures
        split_plan_of(shape, axis, sizes, n) is None,
    decreases n - k,
{
    if k < n {
        lemma_split_stops(shape, axis, sizes, k + 1, n);
    }
}

/// Plans a split of floating-point numbers: every part is a slice.
pub fn split(shape: &[i64], axis: usize, sizes: &[i64]) -> (r: Result<Plan>)
    requires
        axis < shape@.len(),
    ensures
        planned(r, split_of(shape@, axis as int, sizes@)),
{
    if !strides_held(shape) {
        return Err(backend_error("the input is too large"));
    }
    let n: usize = sizes.len();
    let rank: usize = shape.len();
    let steps: Vec<i64> = crate::interp::window::repeat(1, rank);
    assert(steps@ =~= unit_steps(shape@));
    let mut outputs: Vec<Produced> = Vec::new();
    let mut scratch: Vec<Scratch> = Vec::new();
    let mut commands: Vec<Command> = Vec::new();
    let mut start: i64 = 0;
    let mut j: usize = 0;
    proof {
        assert(outputs@.map_values(|p: Produced| p@) =~= Seq::empty());
        assert(scratch@.map_values(|s: Scratch| s@) =~= Seq::empty());
        assert(commands@.map_values(|c: Command| c@) =~= Seq::empty());
    }
    while j < n
        invariant
            j <= n,
            n == sizes@.len(),
            rank == shape@.len(),
            axis < rank,
            strides_fit(shape@),
            steps@ == unit_steps(shape@),
            start == split_start(sizes@, j as int),
            split_plan_of(shape@, axis as int, sizes@, j as int) == Some(
                PlanView {
                    outputs: outputs@.map_values(|p: Produced| p@),
                    scratch: scratch@.map_values(|s: Scratch| s@),
                    commands: commands@.map_values(|c: Command| c@),
                },
            ),
        decreases n - j,
    {
        let ghost rest = split_plan_of(shape@, axis as int, sizes@, j as int)->Some_0;
        proof {
            if split_plan_of(shape@, axis as int, sizes@, j + 1) is None {
                lemma_split_stops(shape@, axis as int, sizes@, j + 1, n as int);
            }
        }
        let mut out: Vec<i64> = section(shape, 0, rank);
        out.set(axis, sizes[j]);
        assert(out@ =~= part_shape(shape@, axis as int, sizes@[j as int]));
        let mut st: Vec<i64> = crate::interp::window::repeat(0, rank);
        st.set(axis, start);
        assert(st@ =~= part_start(shape@, axis as int, split_start(sizes@, j as int)));
        match push_slice(
            &mut outputs,
            &mut scratch,
            &mut commands,
            j,
            shape,
            out,
            st.as_slice(),
            steps.as_slice(),
        ) {
            Ok(_) => {},
            Err(e) => {
                return Err(e);
            },
        }
        match start.checked_add(sizes[j]) {
            Some(s) => {
                start = s;
            },
            None => {
                return Err(backend_error("the sizes are too large"));
            },
        }
        j += 1;
    }
    Ok(assembled(outputs, scratch, commands))
}

// --- Pad --------------------------------------------------------------------------------

/// The shape after padding.
pub open spec fn padded_shape(shape: Seq<i64>, begins: Seq<i64>, ends: Seq<i64>) -> Option<Seq<i64>> {
    if begins.len() != shape.len() || ends.len() != shape.len() || exists|d: int|
        0 <= d < shape.len() && !#[trigger] in_range(shape[d] + begins[d] + ends[d]) {
        None
    } else {
        Some(Seq::new(shape.len(), |d: int| (shape[d] + begins[d] + ends[d]) as i64))
    }
}

fn padded_shape_of(shape: &[i64], begins: &[i64], ends: &[i64]) -> (r: Option<Vec<i64>>)
    ensures
        match (r, padded_shape(shape@, begins@, ends@)) {
            (Some(s), Some(v)) => s@ == v,
            (None, None) => true,
            _ => false,
        },
{
    let rank: usize = shape.len();
    if begins.len() != rank || ends.len() != rank {
        return None;
    }
    let mut out: Vec<i64> = Vec::new();
    let mut d: usize = 0;
    while d < rank
        invariant
            d <= rank,
            rank == shape@.len(),
            begins@.len() == rank,
            ends@.len() == rank,
            out@.len() == d,
            forall|k: int|
                0 <= k < d ==> #[trigger] in_range(shape@[k] + begins@[k] + ends@[k]),
            forall|k: int| 0 <= k < d ==> #[trigger] out@[k] == shape@[k] + begins@[k] + ends@[k],
        decreases rank - d,
    {
        match narrowed(shape[d] as i128 + begins[d] as i128 + ends[d] as i128) {
            Some(v) => {
                out.push(v);
            },
            None => {
                assert(!in_range(
                    shape@[d as int] + begins@[d as int] + ends@[d as int],
                ));
                return None;
            },
        }
        d += 1;
    }
    assert(out@ =~= padded_shape(shape@, begins@, ends@)->Some_0);
    Some(out)
}

/// The parameters of a padding: the rank, then for each dimension the size of the output, the
/// padding at the beginning, the size of the input and its stride.
pub open spec fn pad_table(shape: Seq<i64>, begins: Seq<i64>, out: Seq<i64>) -> Seq<u32> {
    seq![w32(shape.len() as int)] + words_of(out) + words_of(begins) + words_of(shape) + Seq::new(
        shape.len(),
        |d: int| w32(clipped_suffix(shape, d + 1)),
    )
}

/// The plan of a padding with the value `value`.
pub open spec fn pad_plan_of(shape: Seq<i64>, begins: Seq<i64>, ends: Seq<i64>, value: u32) -> Option<
    PlanView,
> {
    match padded_shape(shape, begins, ends) {
        None => None,
        Some(out) => if !strides_fit(shape) {
            None
        } else {
            match volume_of(out) {
                None => None,
                Some(n) => match output_of(FLOAT, out, n) {
                    None => None,
                    Some(p) => {
                        let words = pad_table(shape, begins, out);
                        let upload = CommandView::Upload(0, all_le32(words));
                        Some(
                            PlanView {
                                outputs: seq![p],
                                scratch: seq![ScratchView::Temporary(table_bytes(words))],
                                commands: if n == 0 {
                                    seq![upload]
                                } else {
                                    seq![
                                        upload,
                                        run_of(
                                            Kernel::Pad,
                                            seq![Slot::Input(0), Slot::Scratch(0), Slot::Output(0)],
                                            seq![w32(n), w32(shape.len() as int), value],
                                            ceil_div(w32(n) as int, 256),
                                            1,
                                            1,
                                        ),
                                    ]
                                },
                            },
                        )
                    },
                },
            }
        },
    }
}

/// A plan with one output, one table and a kernel that reads it.
fn tabled(
    out: Produced,
    words: &Vec<u32>,
    kernel: Kernel,
    slots: Vec<Slot>,
    push: Vec<u32>,
    n: usize,
) -> (r: Plan)
    ensures
        r@.outputs == seq![out@],
        r@.scratch == seq![ScratchView::Temporary(table_bytes(words@))],
        r@.commands == (if n == 0 {
            seq![CommandView::Upload(0, all_le32(words@))]
        } else {
            seq![
                CommandView::Upload(0, all_le32(words@)),
                run_of(kernel, slots@, push@, ceil_div(w32(n as int) as int, 256), 1, 1),
            ]
        }),
{
    let (buffer, upload) = table(0, words);
    let ghost (bv, uv, ov) = (buffer@, upload@, out@);
    let ghost cv = run_of(kernel, slots@, push@, ceil_div(w32(n as int) as int, 256), 1, 1);
    let mut commands: Vec<Command> = vec![upload];
    if n > 0 {
        commands.push(run(kernel, slots, push, groups(size_word(n), 256), 1, 1));
    }
    let plan = assembled(vec![out], vec![buffer], commands);
    assert(plan@.outputs =~= seq![ov]);
    assert(plan@.scratch =~= seq![bv]);
    assert(plan@.commands =~= if n == 0 {
        seq![uv]
    } else {
        seq![uv, cv]
    });
    plan
}

/// Plans a padding.
pub fn pad_device(shape: &[i64], begins: &[i64], ends: &[i64], value: u32) -> (r: Result<Plan>)
    ensures
        planned(r, pad_plan_of(shape@, begins@, ends@, value)),
{
    let rank: usize = shape.len();
    let out: Vec<i64> = match padded_shape_of(shape, begins, ends) {
        Some(o) => o,
        None => {
            return Err(backend_error("the padding does not suit the input"));
        },
    };
    let ghost o = out@;
    if !strides_held(shape) {
        return Err(backend_error("the input is too large"));
    }
    let strides = row_major_strides(shape);
    let n: usize = match volume(out.as_slice()) {
        Some(n) => n,
        None => {
            return Err(backend_error("the output is too large"));
        },
    };
    let mut words: Vec<u32> = vec![size_word(rank)];
    extend_words(&mut words, out.as_slice());
    extend_words(&mut words, begins);
    extend_words(&mut words, shape);
    extend_words(&mut words, strides.as_slice());
    proof {
        assert(words_of(strides@) =~= Seq::new(
            shape@.len(),
            |d: int| w32(clipped_suffix(shape@, d + 1)),
        ));
        assert(words@ =~= pad_table(shape@, begins@, o));
    }
    let produced: Produced = match output(FLOAT, out, n) {
        Ok(p) => p,
        Err(e) => {
            return Err(e);
        },
    };
    let slots: Vec<Slot> = vec![Slot::Input(0), Slot::Scratch(0), Slot::Output(0)];
    assert(slots@ =~= seq![Slot::Input(0), Slot::Scratch(0), Slot::Output(0)]);
    let push: Vec<u32> = vec![size_word(n), size_word(rank), value];
    assert(push@ =~= seq![w32(n as int), w32(rank as int), value]);
    Ok(tabled(produced, &words, Kernel::Pad, slots, push, n))
}

// --- Where ------------------------------------------------------------------------------

/// The parameters of a choice: the rank, then for each dimension of the output its size and
/// the strides of condition and both operands.
pub open spec fn where_table(c: Seq<i64>, x: Seq<i64>, y: Seq<i64>, out: Seq<i64>) -> Seq<u32> {
    seq![w32(out.len() as int)] + words_of(out) + stride_words(c, out) + stride_words(x, out)
        + stride_words(y, out)
}

pub open spec fn stride_words(shape: Seq<i64>, out: Seq<i64>) -> Seq<u32> {
    Seq::new(out.len(), |k: int| w32(aligned_stride(shape, out, k)))
}

/// The shape to which condition and both operands broadcast.
pub open spec fn where_shape_of(c: Seq<i64>, x: Seq<i64>, y: Seq<i64>) -> Option<Seq<i64>> {
    if joins(c, x) && joins(joint_shape(c, x), y) {
        Some(joint_shape(joint_shape(c, x), y))
    } else {
        None
    }
}

/// The shape to which condition and both operands broadcast.
pub fn where_shape(c: &[i64], x: &[i64], y: &[i64]) -> (r: Result<Vec<i64>>)
    ensures
        match (r, where_shape_of(c@, x@, y@)) {
            (Ok(s), Some(v)) => s@ == v,
            (Err(e), None) => e.kind() == Kind::Backend,
            _ => false,
        },
{
    match broadcast(c, x) {
        Ok(b) => match broadcast(b.out_shape.as_slice(), y) {
            Ok(d) => Ok(d.out_shape),
            Err(_) => Err(backend_error("the shapes do not broadcast")),
        },
        Err(_) => Err(backend_error("the shapes do not broadcast")),
    }
}

/// The plan of a choice between two floating-point tensors.
pub open spec fn where_plan_of(c: Seq<i64>, x: Seq<i64>, y: Seq<i64>) -> Option<PlanView> {
    match where_shape_of(c, x, y) {
        None => None,
        Some(out) => if !strides_fit(c) || !strides_fit(x) || !strides_fit(y) {
            None
        } else {
            match volume_of(out) {
                None => None,
                Some(n) => match output_of(FLOAT, out, n) {
                    None => None,
                    Some(p) => {
                        let words = where_table(c, x, y, out);
                        let upload = CommandView::Upload(0, all_le32(words));
                        Some(
                            PlanView {
                                outputs: seq![p],
                                scratch: seq![ScratchView::Temporary(table_bytes(words))],
                                commands: if n == 0 {
                                    seq![upload]
                                } else {
                                    seq![
                                        upload,
                                        run_of(
                                            Kernel::Where,
                                            seq![
                                                Slot::Input(0),
                                                Slot::Input(1),
                                                Slot::Input(2),
                                                Slot::Output(0),
                                                Slot::Scratch(0),
                                            ],
                                            seq![w32(n)],
                                            ceil_div(w32(n) as int, 256),
                                            1,
                                            1,
                                        ),
                                    ]
                                },
                            },
                        )
                    },
                },
            }
        },
    }
}

/// Plans a choice between two floating-point tensors.
pub fn where_device(c: &[i64], x: &[i64], y: &[i64]) -> (r: Result<Plan>)
    ensures
        planned(r, where_plan_of(c@, x@, y@)),
{
    let out: Vec<i64> = match where_shape(c, x, y) {
        Ok(s) => s,
        Err(e) => {
            return Err(e);
        },
    };
    let ghost o = out@;
    if !strides_held(c) || !strides_held(x) || !strides_held(y) {
        return Err(backend_error("the inputs are too large"));
    }
    let n: usize = match volume(out.as_slice()) {
        Some(n) => n,
        None => {
            return Err(backend_error("the output is too large"));
        },
    };
    let cs = bcast_strides(c, out.as_slice());
    let xs = bcast_strides(x, out.as_slice());
    let ys = bcast_strides(y, out.as_slice());
    let mut words: Vec<u32> = vec![size_word(out.len())];
    extend_words(&mut words, out.as_slice());
    extend_words(&mut words, cs.as_slice());
    extend_words(&mut words, xs.as_slice());
    extend_words(&mut words, ys.as_slice());
    proof {
        assert(words_of(cs@) =~= stride_words(c@, o));
        assert(words_of(xs@) =~= stride_words(x@, o));
        assert(words_of(ys@) =~= stride_words(y@, o));
        assert(words@ =~= where_table(c@, x@, y@, o));
    }
    let produced: Produced = match output(FLOAT, out, n) {
        Ok(p) => p,
        Err(e) => {
            return Err(e);
        },
    };
    let slots: Vec<Slot> = vec![
        Slot::Input(0),
        Slot::Input(1),
        Slot::Input(2),
        Slot::Output(0),
        Slot::Scratch(0),
    ];
    assert(slots@ =~= seq![
        Slot::Input(0),
        Slot::Input(1),
        Slot::Input(2),
        Slot::Output(0),
        Slot::Scratch(0),
    ]);
    let push: Vec<u32> = vec![size_word(n)];
    assert(push@ =~= seq![w32(n as int)]);
    Ok(tabled(produced, &words, Kernel::Where, slots, push, n))
}

} // verus!
