//! Joining and picking along an axis on the device.

use crate::bytes::all_le32;
use crate::error::{backend_error, Result};
use crate::host_ops::FLOAT;
use crate::interp::layout::{table, table_bytes};
use crate::interp::norm::{axis_of, front};
use crate::interp::window::section;
use crate::num::{
    ceil_div, checked_product, groups, product_fits, size_word, volume, volume_of, w32, word,
};
use crate::plan::{
    assembled, one_output, output, output_of, planned, run, run_of, Command, CommandView, Kernel,
    Plan, PlanView, Produced, Scratch, ScratchView, Slot,
};
use crate::shape::product;
use vstd::prelude::*;

verus! {

// --- Gather -----------------------------------------------------------------------------

/// How many elements dimensions span; a negative product is none.
pub open spec fn spanned_of(dims: Seq<i64>) -> Option<int> {
    if product_fits(dims) && product(dims) <= usize::MAX {
        Some(
            if product(dims) < 0 {
                0
            } else {
                product(dims)
            },
        )
    } else {
        None
    }
}

fn spanned(dims: &[i64]) -> (r: Option<usize>)
    ensures
        match r {
            Some(v) => spanned_of(dims@) == Some(v as int),
            None => spanned_of(dims@) is None,
        },
{
    match checked_product(dims) {
        Some(p) => if p < 0 {
            Some(0)
        } else if p as u64 > usize::MAX as u64 {
            None
        } else {
            Some(p as usize)
        },
        None => None,
    }
}

/// An index along a dimension, counted from the end where negative, as the kernel reads it.
pub open spec fn index_word(i: i64, dim: i64) -> u32 {
    if i < 0 {
        w32(i + dim)
    } else {
        w32(i as int)
    }
}

pub open spec fn index_words(indices: Seq<i64>, dim: i64) -> Seq<u32> {
    indices.map_values(|i: i64| index_word(i, dim))
}

fn indices_of(indices: &[i64], dim: i64) -> (r: Vec<u32>)
    ensures
        r@ == index_words(indices@, dim),
{
    let n: usize = indices.len();
    let mut r: Vec<u32> = Vec::new();
    let mut i: usize = 0;
    while i < n
        invariant
            i <= n,
            n == indices@.len(),
            r@ == index_words(indices@, dim).take(i as int),
        decreases n - i,
    {
        let g: i64 = indices[i];
        let w: u32 = if g < 0 {
            let wide: i128 = g as i128 + dim as i128;
            #[verifier::truncate]
            (wide as u32)
        } else {
            word(g)
        };
        r.push(w);
        assert(r@ =~= index_words(indices@, dim).take(i + 1));
        i += 1;
    }
    assert(index_words(indices@, dim).take(n as int) =~= index_words(indices@, dim));
    r
}

/// The plan of `Gather` on floating-point numbers: the dimension of the axis gives way to those
/// of the indices. Nothing runs where the result is empty.
pub open spec fn gather_plan_of(
    data: Seq<i64>,
    axis: i64,
    index_shape: Seq<i64>,
    indices: Seq<i64>,
) -> Option<PlanView> {
    match axis_of(axis, data.len() as int) {
        None => None,
        Some(a) => match (spanned_of(data.skip(a + 1)), spanned_of(data.take(a))) {
            (Some(inner), Some(outer)) => {
                let count = indices.len() as int;
                let n = outer * count * inner;
                let out = data.take(a) + index_shape + data.skip(a + 1);
                let words = index_words(indices, data[a]);
                if outer * count > usize::MAX || n > usize::MAX {
                    None
                } else {
                    match output_of(FLOAT, out, n) {
                        None => None,
                        Some(p) => Some(
                            PlanView {
                                outputs: seq![p],
                                scratch: seq![ScratchView::Temporary(table_bytes(words))],
                                commands: if n == 0 {
                                    seq![CommandView::Upload(0, all_le32(words))]
                                } else {
                                    seq![
                                        CommandView::Upload(0, all_le32(words)),
                                        run_of(
                                            Kernel::Gather,
                                            seq![Slot::Input(0), Slot::Scratch(0), Slot::Output(0)],
                                            seq![
                                                w32(n),
                                                w32(inner),
                                                w32(count),
                                                w32(data[a] as int),
                                            ],
                                            ceil_div(w32(n) as int, 256),
                                            1,
                                            1,
                                        ),
                                    ]
                                },
                            },
                        ),
                    }
                }
            },
            _ => None,
        },
    }
}

/// Plans `Gather` on floating-point numbers; the indices are on the host.
pub fn gather_device(data: &[i64], axis: i64, index_shape: &[i64], indices: &[i64]) -> (r: Result<
    Plan,
>)
    ensures
        planned(r, gather_plan_of(data@, axis, index_shape@, indices@)),
{
    let rank: usize = data.len();
    let a: usize = match front(axis, rank) {
        Some(a) => a,
        None => {
            return Err(backend_error("the axis is not one of the tensor's"));
        },
    };
    let (before, behind): (Vec<i64>, Vec<i64>) = (section(data, 0, a), section(data, a + 1, rank));
    assert(before@ =~= data@.take(a as int));
    assert(behind@ =~= data@.skip(a + 1));
    let (inner, outer): (usize, usize) = match (
        spanned(behind.as_slice()),
        spanned(before.as_slice()),
    ) {
        (Some(i), Some(o)) => (i, o),
        _ => {
            return Err(backend_error("the input is too large"));
        },
    };
    let count: usize = indices.len();
    let n: usize = match outer.checked_mul(count) {
        Some(m) => match m.checked_mul(inner) {
            Some(n) => n,
            None => {
                return Err(backend_error("the output is too large"));
            },
        },
        None => {
            return Err(backend_error("the output is too large"));
        },
    };
    let mut out: Vec<i64> = before;
    let mut middle: Vec<i64> = section(index_shape, 0, index_shape.len());
    let mut tail: Vec<i64> = behind;
    let ghost (mid, end) = (middle@, tail@);
    out.append(&mut middle);
    out.append(&mut tail);
    assert(mid =~= index_shape@);
    assert(end =~= data@.skip(a + 1));
    assert(out@ =~= data@.take(a as int) + index_shape@ + data@.skip(a + 1));
    let words: Vec<u32> = indices_of(indices, data[a]);
    let produced: Produced = match output(FLOAT, out, n) {
        Ok(p) => p,
        Err(e) => {
            return Err(e);
        },
    };
    let (buffer, upload) = table(0, &words);
    let slots: Vec<Slot> = vec![Slot::Input(0), Slot::Scratch(0), Slot::Output(0)];
    assert(slots@ =~= seq![Slot::Input(0), Slot::Scratch(0), Slot::Output(0)]);
    let push: Vec<u32> = vec![size_word(n), size_word(inner), size_word(count), word(data[a])];
    assert(push@ =~= seq![
        w32(n as int),
        w32(inner as int),
        w32(count as int),
        w32(data@[a as int] as int),
    ]);
    let commands: Vec<Command> = if n == 0 {
        vec![upload]
    } else {
        vec![upload, run(Kernel::Gather, slots, push, groups(size_word(n), 256), 1, 1)]
    };
    let plan = assembled(vec![produced], vec![buffer], commands);
    proof {
        let want = gather_plan_of(data@, axis, index_shape@, indices@)->Some_0;
        assert(plan@.outputs =~= want.outputs);
        assert(plan@.scratch =~= want.scratch);
        assert(plan@.commands =~= want.commands);
    }
    Ok(plan)
}

// --- Concat -----------------------------------------------------------------------------

/// One of the tensors that are joined.
pub struct Joined {
    /// Which input of the node it is.
    pub input: usize,
    pub shape: Vec<i64>,
    pub elem_count: usize,
}

#[verifier::ext_equal]
pub struct JoinedView {
    pub input: usize,
    pub shape: Seq<i64>,
    pub elem_count: int,
}

impl View for Joined {
    type V = JoinedView;

    open spec fn view(&self) -> JoinedView {
        JoinedView { input: self.input, shape: self.shape@, elem_count: self.elem_count as int }
    }
}

/// The size of a tensor along an axis.
pub open spec fn along(p: JoinedView, axis: int) -> int {
    if p.shape[axis] < 0 {
        0
    } else {
        p.shape[axis] as int
    }
}

/// The size of the first `k` tensors together along the axis.
pub open spec fn joined_size(parts: Seq<JoinedView>, axis: int, k: int) -> int
    decreases k,
{
    if k <= 0 {
        0
    } else {
        joined_size(parts, axis, k - 1) + along(parts[k - 1], axis)
    }
}

/// The commands that put the first `k` tensors side by side.
pub open spec fn join_commands(
    parts: Seq<JoinedView>,
    axis: int,
    inner: int,
    size: int,
    k: int,
) -> Seq<CommandView>
    decreases k,
{
    if k <= 0 {
        Seq::empty()
    } else {
        let rest = join_commands(parts, axis, inner, size, k - 1);
        let p = parts[k - 1];
        if p.elem_count == 0 {
            rest
        } else {
            rest.push(
                run_of(
                    Kernel::Concat,
                    seq![Slot::Input(p.input), Slot::Output(0)],
                    seq![
                        w32(p.elem_count),
                        w32(inner),
                        w32(along(p, axis)),
                        w32(size),
                        w32(joined_size(parts, axis, k - 1)),
                    ],
                    ceil_div(w32(p.elem_count) as int, 256),
                    1,
                    1,
                ),
            )
        }
    }
}

/// The plan of `Concat` on floating-point numbers: one dispatch for each tensor, at its place
/// along the axis.
pub open spec fn concat_plan_of(parts: Seq<JoinedView>, axis: i64) -> Option<PlanView> {
    if parts.len() == 0 {
        None
    } else {
        let base = parts[0].shape;
        match axis_of(axis, base.len() as int) {
            None => None,
            Some(a) => {
                let size = joined_size(parts, a, parts.len() as int);
                let out = base.update(a, size as i64);
                if (exists|k: int| 0 <= k < parts.len() && (#[trigger] parts[k]).shape.len() <= a)
                    || size > usize::MAX || size > i64::MAX {
                    None
                } else {
                    match (volume_of(base.skip(a + 1)), volume_of(out)) {
                        (Some(inner), Some(n)) => match output_of(FLOAT, out, n) {
                            None => None,
                            Some(p) => Some(
                                one_output(
                                    p,
                                    join_commands(parts, a, inner, size, parts.len() as int),
                                ),
                            ),
                        },
                        _ => None,
                    }
                }
            },
        }
    }
}

pub open spec fn joined_views(parts: Seq<Joined>) -> Seq<JoinedView> {
    parts.map_values(|p: Joined| p@)
}

proof fn lemma_joined(parts: Seq<JoinedView>, axis: int, k: int, n: int)
    requires
        0 <= k <= n,
    ensures
        0 <= joined_size(parts, axis, k) <= joined_size(parts, axis, n),
    decreases n,
{
    if k < n {
        lemma_joined(parts, axis, k, n - 1);
    } else if k > 0 {
        lemma_joined(parts, axis, k - 1, n - 1);
    }
}

/// The size of the tensors together, where each has the axis and the sum can be held.
fn total_size(parts: &Vec<Joined>, axis: usize) -> (r: Option<usize>)
    ensures
        match r {
            Some(s) => {
                &&& s == joined_size(joined_views(parts@), axis as int, parts@.len() as int)
                &&& s <= i64::MAX
                &&& forall|k: int|
                    0 <= k < parts@.len() ==> (#[trigger] joined_views(parts@)[k]).shape.len()
                        > axis
            },
            None => {
                ||| exists|k: int|
                    0 <= k < parts@.len() && (#[trigger] joined_views(parts@)[k]).shape.len()
                        <= axis
                ||| joined_size(joined_views(parts@), axis as int, parts@.len() as int)
                    > usize::MAX
                ||| joined_size(joined_views(parts@), axis as int, parts@.len() as int) > i64::MAX
            },
        },
{
    let ghost views = joined_views(parts@);
    let n: usize = parts.len();
    let mut size: usize = 0;
    let mut i: usize = 0;
    while i < n
        invariant
            i <= n,
            n == parts@.len(),
            views == joined_views(parts@),
            size == joined_size(views, axis as int, i as int),
            forall|k: int| 0 <= k < i ==> (#[trigger] views[k]).shape.len() > axis,
        decreases n - i,
    {
        assert(views[i as int] == parts@[i as int]@);
        if parts[i].shape.len() <= axis {
            return None;
        }
        let d: i64 = parts[i].shape[axis];
        let d: u64 = if d < 0 {
            0
        } else {
            d as u64
        };
        proof {
            lemma_joined(views, axis as int, i + 1, n as int);
        }
        if d > usize::MAX as u64 {
            return None;
        }
        match size.checked_add(d as usize) {
            Some(s) => {
                size = s;
            },
            None => {
                return None;
            },
        }
        i += 1;
    }
    if size as u64 > i64::MAX as u64 {
        return None;
    }
    Some(size)
}

/// Plans `Concat` on floating-point numbers.
pub fn concat_device(parts: &Vec<Joined>, axis: i64) -> (r: Result<Plan>)
    ensures
        planned(r, concat_plan_of(joined_views(parts@), axis)),
{
    let ghost views = joined_views(parts@);
    let count: usize = parts.len();
    if count == 0 {
        return Err(backend_error("there is nothing to join"));
    }
    assert(views[0] == parts@[0]@);
    let rank: usize = parts[0].shape.len();
    let a: usize = match front(axis, rank) {
        Some(a) => a,
        None => {
            return Err(backend_error("the axis is not one of the tensor's"));
        },
    };
    let size: usize = match total_size(parts, a) {
        Some(s) => s,
        None => {
            return Err(backend_error("the tensors cannot be joined along the axis"));
        },
    };
    let rest = section(parts[0].shape.as_slice(), a + 1, rank);
    assert(rest@ =~= views[0].shape.skip(a + 1));
    let mut out = section(parts[0].shape.as_slice(), 0, rank);
    out.set(a, size as i64);
    assert(out@ =~= views[0].shape.update(a as int, size as i64));
    let (inner, n): (usize, usize) = match (volume(rest.as_slice()), volume(out.as_slice())) {
        (Some(i), Some(n)) => (i, n),
        _ => {
            return Err(backend_error("the output is too large"));
        },
    };
    let produced: Produced = match output(FLOAT, out, n) {
        Ok(p) => p,
        Err(e) => {
            return Err(e);
        },
    };
    let ghost pv = produced@;
    let mut commands: Vec<Command> = Vec::new();
    let mut off: usize = 0;
    let mut i: usize = 0;
    assert(commands@.map_values(|c: Command| c@) =~= Seq::empty());
    while i < count
        invariant
            i <= count,
            count == parts@.len(),
            views == joined_views(parts@),
            size == joined_size(views, a as int, count as int),
            off == joined_size(views, a as int, i as int),
            forall|k: int| 0 <= k < count ==> (#[trigger] views[k]).shape.len() > a,
            commands@.map_values(|c: Command| c@) == join_commands(
                views,
                a as int,
                inner as int,
                size as int,
                i as int,
            ),
        decreases count - i,
    {
        assert(views[i as int] == parts@[i as int]@);
        let ghost before = commands@.map_values(|c: Command| c@);
        let d: i64 = parts[i].shape[a];
        let d: i64 = if d < 0 {
            0
        } else {
            d
        };
        let part: usize = parts[i].elem_count;
        if part > 0 {
            let slots: Vec<Slot> = vec![Slot::Input(parts[i].input), Slot::Output(0)];
            assert(slots@ =~= seq![Slot::Input(views[i as int].input), Slot::Output(0)]);
            let push: Vec<u32> = vec![
                size_word(part),
                size_word(inner),
                word(d),
                size_word(size),
                size_word(off),
            ];
            assert(push@ =~= seq![
                w32(part as int),
                w32(inner as int),
                w32(d as int),
                w32(size as int),
                w32(off as int),
            ]);
            let c = run(Kernel::Concat, slots, push, groups(size_word(part), 256), 1, 1);
            let ghost cv = c@;
            commands.push(c);
            assert(commands@.map_values(|c: Command| c@) =~= before.push(cv));
        }
        proof {
            lemma_joined(views, a as int, i + 1, count as int);
        }
        off = off + d as usize;
        i += 1;
    }
    let none: Vec<Scratch> = Vec::new();
    let plan = assembled(vec![produced], none, commands);
    assert(plan@.outputs =~= seq![pv]);
    assert(plan@.scratch =~= Seq::empty());
    Ok(plan)
}

} // verus!
