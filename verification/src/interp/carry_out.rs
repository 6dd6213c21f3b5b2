//! What a plan means once its buffers exist.

use crate::cache::KernelCache;
use crate::device::{DeviceBuffer, DeviceTensor, DeviceView, Tensor};
use crate::execution::ExecutionEnv;
use crate::graph::NodeIr;
use crate::host_ops::copy_dims;
use crate::interp::work::{device_in, on_device};
use crate::plan::{
    Command, CommandView, Produced, ProducedView, Scratch, ScratchView, Slot, Storage,
};
use vstd::prelude::*;

verus! {

/// The buffers that were made for a plan: one for each output, one for each buffer of its own,
/// and the shared one that holds a zero. An output that has its storage elsewhere has any number
/// here.
pub struct Made {
    pub outputs: Vec<u64>,
    pub scratch: Vec<u64>,
    pub zero: u64,
}

/// The buffer that a slot stands for; nothing where the input is not on the device, or the plan
/// has no such buffer.
pub open spec fn slot_handle(env: ExecutionEnv, node: NodeIr, made: Made, slot: Slot) -> Option<u64> {
    match slot {
        Slot::Input(i) => match device_in(env, node, i as int) {
            Some(d) => Some(d.buf.handle()),
            None => None,
        },
        Slot::Output(i) => if i < made.outputs@.len() {
            Some(made.outputs@[i as int])
        } else {
            None
        },
        Slot::Scratch(i) => if i < made.scratch@.len() {
            Some(made.scratch@[i as int])
        } else {
            None
        },
        Slot::Zero => Some(made.zero),
    }
}

/// The buffer that a slot stands for.
pub fn slot_buffer(env: &ExecutionEnv, node: &NodeIr, made: &Made, slot: Slot) -> (r: Option<u64>)
    ensures
        r == slot_handle(*env, *node, *made, slot),
{
    match slot {
        Slot::Input(i) => match on_device(env, node, i) {
            Some(d) => Some(d.buffer()),
            None => None,
        },
        Slot::Output(i) => if i < made.outputs.len() {
            Some(made.outputs[i])
        } else {
            None
        },
        Slot::Scratch(i) => if i < made.scratch.len() {
            Some(made.scratch[i])
        } else {
            None
        },
        Slot::Zero => Some(made.zero),
    }
}

/// The buffers that the slots stand for, in order; nothing where one stands for none.
pub fn slot_buffers(env: &ExecutionEnv, node: &NodeIr, made: &Made, slots: &Vec<Slot>) -> (r: Option<
    Vec<u64>,
>)
    ensures
        match r {
            Some(v) => v@.len() == slots@.len() && forall|k: int|
                0 <= k < slots@.len() ==> slot_handle(*env, *node, *made, #[trigger] slots@[k])
                    == Some(v@[k]),
            None => exists|k: int|
                0 <= k < slots@.len() && slot_handle(
                    *env,
                    *node,
                    *made,
                    #[trigger] slots@[k],
                ) is None,
        },
{
    let n: usize = slots.len();
    let mut v: Vec<u64> = Vec::new();
    let mut k: usize = 0;
    while k < n
        invariant
            k <= n,
            n == slots@.len(),
            v@.len() == k,
            forall|i: int|
                0 <= i < k ==> slot_handle(*env, *node, *made, #[trigger] slots@[i]) == Some(v@[i]),
        decreases n - k,
    {
        match slot_buffer(env, node, made, slots[k]) {
            Some(b) => {
                v.push(b);
            },
            None => {
                assert(slot_handle(*env, *node, *made, slots@[k as int]) is None);
                return None;
            },
        }
        k += 1;
    }
    Some(v)
}

/// The buffer that is already kept for a buffer of the plan, if there is one.
pub open spec fn reuses(cache: KernelCache, s: ScratchView, r: Option<u64>) -> bool {
    match (s, r) {
        (ScratchView::Temporary(_), None) => true,
        (ScratchView::Kept(key, _), Some(h)) => cache.packed.at(key, h),
        (ScratchView::Kept(key, _), None) => !cache.packed.has(key),
        _ => false,
    }
}

/// The buffers that are already kept for the buffers of a plan; the others are to be made.
pub fn reused(cache: &KernelCache, scratch: &Vec<Scratch>) -> (r: Vec<Option<u64>>)
    ensures
        r@.len() == scratch@.len(),
        forall|k: int| 0 <= k < r@.len() ==> reuses(*cache, scratch@[k]@, #[trigger] r@[k]),
{
    let n: usize = scratch.len();
    let mut r: Vec<Option<u64>> = Vec::new();
    let mut k: usize = 0;
    while k < n
        invariant
            k <= n,
            n == scratch@.len(),
            r@.len() == k,
            forall|j: int| 0 <= j < k ==> reuses(*cache, scratch@[j]@, #[trigger] r@[j]),
        decreases n - k,
    {
        let there: Option<u64> = match &scratch[k] {
            Scratch::Temporary(_) => None,
            Scratch::Kept(key, _) => cache.packed_weight_cached(key),
        };
        assert(reuses(*cache, scratch@[k as int]@, there));
        r.push(there);
        k += 1;
    }
    r
}

/// The commands among the first `k` that are due: one that fills a kept buffer runs only where
/// that buffer is made now.
pub open spec fn due_of(commands: Seq<CommandView>, there: Seq<Option<u64>>, k: int) -> Seq<CommandView>
    decreases k,
{
    if k <= 0 {
        Seq::empty()
    } else {
        let rest = due_of(commands, there, k - 1);
        match commands[k - 1] {
            CommandView::Once(i, d) => if 0 <= i < there.len() && there[i] is Some {
                rest
            } else {
                rest.push(CommandView::Run(d))
            },
            c => rest.push(c),
        }
    }
}

/// The commands of a plan that are due.
pub fn due(commands: Vec<Command>, there: &Vec<Option<u64>>) -> (r: Vec<Command>)
    ensures
        r@.map_values(|c: Command| c@) == due_of(
            commands@.map_values(|c: Command| c@),
            there@,
            commands@.len() as int,
        ),
{
    let ghost all = commands@;
    let ghost views = commands@.map_values(|c: Command| c@);
    let mut rest = commands;
    let n: usize = rest.len();
    let mut r: Vec<Command> = Vec::new();
    let mut k: usize = 0;
    assert(r@.map_values(|c: Command| c@) =~= Seq::empty());
    while k < n
        invariant
            k <= n,
            n == all.len(),
            views == all.map_values(|c: Command| c@),
            rest@ == all.skip(k as int),
            r@.map_values(|c: Command| c@) == due_of(views, there@, k as int),
        decreases n - k,
    {
        let c = rest.remove(0);
        assert(rest@ =~= all.skip(k + 1));
        assert(views[k as int] == c@);
        let ghost was = r@.map_values(|c: Command| c@);
        match c {
            Command::Once(i, d) => {
                if !(i < there.len() && there[i].is_some()) {
                    let run = Command::Run(d);
                    let ghost v = run@;
                    r.push(run);
                    assert(r@.map_values(|c: Command| c@) =~= was.push(v));
                }
            },
            _ => {
                let ghost v = c@;
                r.push(c);
                assert(r@.map_values(|c: Command| c@) =~= was.push(v));
            },
        }
        k += 1;
    }
    r
}

/// The tensor that a plan leaves: the run owns a new buffer, and borrows one that is kept.
pub open spec fn left_by(p: ProducedView, own: u64, scratch: Seq<u64>) -> DeviceView {
    DeviceView {
        dtype: p.dtype,
        shape: p.shape,
        elem_count: p.elem_count as usize,
        buf: match p.storage {
            Storage::New(_) => DeviceBuffer::Owned(own),
            Storage::Scratch(i) => DeviceBuffer::Borrowed(scratch[i as int]),
        },
    }
}

/// The tensors that a plan leaves on the device; nothing where one lies in a buffer that the
/// plan does not have.
pub fn tensors(outputs: &Vec<Produced>, made: &Made) -> (r: Option<Vec<Tensor>>)
    requires
        made.outputs@.len() == outputs@.len(),
    ensures
        match r {
            Some(v) => v@.len() == outputs@.len() && forall|k: int|
                0 <= k < v@.len() ==> ((#[trigger] v@[k]) matches Tensor::Device(d) && d@ == left_by(
                    outputs@[k]@,
                    made.outputs@[k],
                    made.scratch@,
                )),
            None => exists|k: int|
                0 <= k < outputs@.len() && ((#[trigger] outputs@[k]).storage matches Storage::Scratch(i)
                    && i >= made.scratch@.len()),
        },
{
    let n: usize = outputs.len();
    let mut v: Vec<Tensor> = Vec::new();
    let mut k: usize = 0;
    while k < n
        invariant
            k <= n,
            n == outputs@.len(),
            made.outputs@.len() == n,
            v@.len() == k,
            forall|j: int|
                0 <= j < k ==> ((#[trigger] v@[j]) matches Tensor::Device(d) && d@ == left_by(
                    outputs@[j]@,
                    made.outputs@[j],
                    made.scratch@,
                )),
        decreases n - k,
    {
        let p: &Produced = &outputs[k];
        let buf: DeviceBuffer = match p.storage {
            Storage::New(_) => DeviceBuffer::Owned(made.outputs[k]),
            Storage::Scratch(i) => if i < made.scratch.len() {
                DeviceBuffer::Borrowed(made.scratch[i])
            } else {
                assert(outputs@[k as int].storage matches Storage::Scratch(i) && i
                    >= made.scratch@.len());
                return None;
            },
        };
        let d = DeviceTensor {
            dtype: p.dtype,
            shape: copy_dims(p.shape.as_slice()),
            elem_count: p.elem_count,
            buf,
        };
        assert(d@ == left_by(outputs@[k as int]@, made.outputs@[k as int], made.scratch@));
        v.push(Tensor::Device(d));
        k += 1;
    }
    Some(v)
}

} // verus!
