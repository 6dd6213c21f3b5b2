//! What a node needs next.
//!
//! A node is looked at again after every answer: as long as an input is not where it has to be,
//! the node asks for it; then it says what is to be done.

use crate::device::DeviceTensor;
use crate::error::{backend_error, Kind, Result};
use crate::execution::{ExecutionEnv, Fetch, FetchView};
use crate::graph::{NodeIr, TensorView};
use crate::host_ops::arith::BinOp;
use crate::host_ops::{copy_dims, floats_of, gives, ints_of, HostTensor, Outcome};
use crate::interp::attention::AttentionSizes;
use crate::interp::int_product::IntOperands;
use crate::interp::product::Extent;
use crate::interp::sampling::ResizeSizes;
use crate::interp::window::{optional, ConvGeom, GeomView};
use crate::names::NameMap;
use crate::plan::{planned, Plan, PlanView};
use vstd::prelude::*;

verus! {

/// What a node needs next.
#[derive(Debug, PartialEq)]
pub enum Work {
    /// This input on the host.
    Fetch(usize),
    /// This input on the device; as single-precision numbers, where the flag says so.
    Place(usize, bool),
    /// The device is to carry out a plan.
    Plan(Plan),
    /// The outputs are here.
    Results(Vec<HostTensor>),
    /// Arithmetic on the host.
    Arithmetic(BinOp, HostTensor, HostTensor),
    /// The remainder on the host; truncated where the flag says so.
    Remainder(bool, HostTensor, HostTensor),
    /// Sums along an axis on the host: exclusive and backwards, where the flags say so.
    RunningSums(HostTensor, i64, bool, bool),
    /// Bounds on the host.
    Bounds(HostTensor, Option<HostTensor>, Option<HostTensor>),
    /// The numbers from a start to a limit by a step.
    Range(HostTensor, HostTensor, HostTensor),
    /// The first so many along an axis, by size or by smallness.
    TopK(HostTensor, usize, i64, bool),
    /// The nodes of the first branch, or of the second.
    Branch(bool),
    /// A convolution, once its layout is chosen; with a bias, where the flag says so.
    Conv(ConvGeom, bool),
    /// A transposed convolution with its output padding; with a bias, and with constant weights,
    /// where the flags say so.
    ConvTranspose(ConvGeom, Option<Vec<i64>>, bool, bool),
    ConvInteger(ConvGeom, IntOperands),
    /// A product of matrices of these shapes.
    MatMul(Vec<i64>, Vec<i64>),
    /// A product of integer matrices of these shapes, signed where the flags say so. The second
    /// may be kept packed where the last flag says that it is constant, and is given where it is
    /// not packed yet.
    MatMulInteger(Vec<i64>, Vec<i64>, bool, bool, bool, Option<HostTensor>),
    /// A product with four-bit weights: shape and size of the first operand, then weights and
    /// scales.
    MatMulNbits(Vec<i64>, usize, Extent, Extent),
    Attention(AttentionSizes),
    /// A resampling of this shape.
    Resize(Vec<i64>, ResizeSizes),
}

#[verifier::ext_equal]
pub enum WorkView {
    Fetch(int),
    Place(int, bool),
    Plan(PlanView),
    Results(Seq<TensorView>),
    Arithmetic(BinOp, TensorView, TensorView),
    Remainder(bool, TensorView, TensorView),
    RunningSums(TensorView, i64, bool, bool),
    Bounds(TensorView, Option<TensorView>, Option<TensorView>),
    Range(TensorView, TensorView, TensorView),
    TopK(TensorView, int, i64, bool),
    Branch(bool),
    Conv(GeomView, bool),
    ConvTranspose(GeomView, Option<Seq<i64>>, bool, bool),
    ConvInteger(GeomView, IntOperands),
    MatMul(Seq<i64>, Seq<i64>),
    MatMulInteger(Seq<i64>, Seq<i64>, bool, bool, bool, Option<TensorView>),
    MatMulNbits(Seq<i64>, usize, Extent, Extent),
    Attention(AttentionSizes),
    Resize(Seq<i64>, ResizeSizes),
}

pub open spec fn optional_view(t: Option<HostTensor>) -> Option<TensorView> {
    match t {
        Some(h) => Some(h@),
        None => None,
    }
}

impl View for Work {
    type V = WorkView;

    open spec fn view(&self) -> WorkView {
        match *self {
            Work::Fetch(i) => WorkView::Fetch(i as int),
            Work::Place(i, f) => WorkView::Place(i as int, f),
            Work::Plan(p) => WorkView::Plan(p@),
            Work::Results(v) => WorkView::Results(v@.map_values(|t: HostTensor| t@)),
            Work::Arithmetic(op, a, b) => WorkView::Arithmetic(op, a@, b@),
            Work::Remainder(f, a, b) => WorkView::Remainder(f, a@, b@),
            Work::RunningSums(x, a, e, r) => WorkView::RunningSums(x@, a, e, r),
            Work::Bounds(x, lo, hi) => WorkView::Bounds(x@, optional_view(lo), optional_view(hi)),
            Work::Range(a, b, c) => WorkView::Range(a@, b@, c@),
            Work::TopK(x, k, a, l) => WorkView::TopK(x@, k as int, a, l),
            Work::Branch(c) => WorkView::Branch(c),
            Work::Conv(g, b) => WorkView::Conv(g@, b),
            Work::ConvTranspose(g, o, b, c) => WorkView::ConvTranspose(g@, optional(o), b, c),
            Work::ConvInteger(g, o) => WorkView::ConvInteger(g@, o),
            Work::MatMul(a, b) => WorkView::MatMul(a@, b@),
            Work::MatMulInteger(a, b, s, t, c, h) => WorkView::MatMulInteger(
                a@,
                b@,
                s,
                t,
                c,
                optional_view(h),
            ),
            Work::MatMulNbits(a, n, w, s) => WorkView::MatMulNbits(a@, n, w, s),
            Work::Attention(s) => WorkView::Attention(s),
            Work::Resize(x, s) => WorkView::Resize(x@, s),
        }
    }
}

/// Whether `r` is the work that `s` says, or a refusal where `s` says nothing.
pub open spec fn works(r: Result<Work>, s: Option<WorkView>) -> bool {
    match (r, s) {
        (Ok(w), Some(v)) => w@ == v,
        (Err(e), None) => e.kind() == Kind::Backend,
        _ => false,
    }
}

// --- inputs -----------------------------------------------------------------------------

/// An input on the host: here, away on the device, or not to be had.
pub enum Read {
    Here(HostTensor),
    Away,
    Refused,
}

pub enum ReadView {
    Here(TensorView),
    Away,
    Refused,
}

impl View for Read {
    type V = ReadView;

    open spec fn view(&self) -> ReadView {
        match *self {
            Read::Here(t) => ReadView::Here(t@),
            Read::Away => ReadView::Away,
            Read::Refused => ReadView::Refused,
        }
    }
}

/// Where input `i` is, given what was read back for this node.
pub open spec fn read_of(
    env: ExecutionEnv,
    fetched: NameMap<HostTensor>,
    node: NodeIr,
    i: int,
) -> ReadView {
    let name = node.input_name(i);
    if i >= node.inputs@.len() {
        ReadView::Refused
    } else if fetched.has(name) {
        ReadView::Here(fetched.at(name)@)
    } else {
        match env.fetch_of(name) {
            Ok(FetchView::Here(t)) => ReadView::Here(t),
            Ok(FetchView::Download(_, _)) => ReadView::Away,
            Err(_) => ReadView::Refused,
        }
    }
}

pub fn copied(t: &HostTensor) -> (r: HostTensor)
    ensures
        r@ == t@,
{
    HostTensor { dtype: t.dtype, shape: copy_dims(t.shape.as_slice()), data: t.data.clone() }
}

/// Where input `i` is.
pub fn read(env: &ExecutionEnv, fetched: &NameMap<HostTensor>, node: &NodeIr, i: usize) -> (r: Read)
    ensures
        r@ == read_of(*env, *fetched, *node, i as int),
{
    if i >= node.inputs.len() {
        return Read::Refused;
    }
    let name = node.inputs[i].as_str();
    match fetched.get(name) {
        Some(t) => {
            return Read::Here(copied(t));
        },
        None => {},
    }
    match env.host(name) {
        Ok(Fetch::Here(t)) => Read::Here(t),
        Ok(Fetch::Download(_, _)) => Read::Away,
        Err(_) => Read::Refused,
    }
}

/// The elements of an input: here, away, or not to be had.
pub enum Elements<T> {
    Here(Vec<T>),
    Away,
    Refused,
}

pub enum ElementsView<T> {
    Here(Seq<T>),
    Away,
    Refused,
}

impl<T> View for Elements<T> {
    type V = ElementsView<T>;

    open spec fn view(&self) -> ElementsView<T> {
        match *self {
            Elements::Here(v) => ElementsView::Here(v@),
            Elements::Away => ElementsView::Away,
            Elements::Refused => ElementsView::Refused,
        }
    }
}

/// The elements of input `i` as integers.
pub open spec fn ints_in(
    env: ExecutionEnv,
    fetched: NameMap<HostTensor>,
    node: NodeIr,
    i: int,
) -> ElementsView<i64> {
    match read_of(env, fetched, node, i) {
        ReadView::Here(t) => match ints_of(t) {
            Ok(v) => ElementsView::Here(v),
            Err(_) => ElementsView::Refused,
        },
        ReadView::Away => ElementsView::Away,
        ReadView::Refused => ElementsView::Refused,
    }
}

pub fn read_ints(env: &ExecutionEnv, fetched: &NameMap<HostTensor>, node: &NodeIr, i: usize) -> (r: Elements<
    i64,
>)
    ensures
        r@ == ints_in(*env, *fetched, *node, i as int),
{
    match read(env, fetched, node, i) {
        Read::Here(t) => match t.to_i64() {
            Ok(v) => Elements::Here(v),
            Err(_) => Elements::Refused,
        },
        Read::Away => Elements::Away,
        Read::Refused => Elements::Refused,
    }
}

/// The elements of input `i` as the bits of single-precision numbers.
pub open spec fn floats_in(
    env: ExecutionEnv,
    fetched: NameMap<HostTensor>,
    node: NodeIr,
    i: int,
) -> ElementsView<u32> {
    match read_of(env, fetched, node, i) {
        ReadView::Here(t) => match floats_of(t) {
            Ok(v) => ElementsView::Here(v),
            Err(_) => ElementsView::Refused,
        },
        ReadView::Away => ElementsView::Away,
        ReadView::Refused => ElementsView::Refused,
    }
}

pub fn read_floats(env: &ExecutionEnv, fetched: &NameMap<HostTensor>, node: &NodeIr, i: usize) -> (r: Elements<
    u32,
>)
    ensures
        r@ == floats_in(*env, *fetched, *node, i as int),
{
    match read(env, fetched, node, i) {
        Read::Here(t) => match t.to_f32() {
            Ok(v) => Elements::Here(v),
            Err(_) => Elements::Refused,
        },
        Read::Away => Elements::Away,
        Read::Refused => Elements::Refused,
    }
}

/// The tensor that is on the device as input `i`.
pub open spec fn device_in(env: ExecutionEnv, node: NodeIr, i: int) -> Option<DeviceTensor> {
    if i < node.inputs@.len() {
        env.device_at(node.input_name(i))
    } else {
        None
    }
}

pub fn on_device<'a>(env: &'a ExecutionEnv, node: &NodeIr, i: usize) -> (r: Option<&'a DeviceTensor>)
    ensures
        match r {
            Some(d) => device_in(*env, *node, i as int) == Some(*d),
            None => device_in(*env, *node, i as int) is None,
        },
{
    if i >= node.inputs.len() {
        return None;
    }
    match env.device(node.inputs[i].as_str()) {
        Ok(d) => Some(d),
        Err(_) => None,
    }
}

/// The type of input `i`.
pub open spec fn dtype_in(env: ExecutionEnv, node: NodeIr, i: int) -> Option<i32> {
    if i < node.inputs@.len() {
        env.dtype_at(node.input_name(i))
    } else {
        None
    }
}

pub fn input_dtype(env: &ExecutionEnv, node: &NodeIr, i: usize) -> (r: Option<i32>)
    ensures
        r == dtype_in(*env, *node, i as int),
{
    if i >= node.inputs.len() {
        return None;
    }
    match env.dtype_of(node.inputs[i].as_str()) {
        Ok(d) => Some(d),
        Err(_) => None,
    }
}

/// The shape of input `i`.
pub open spec fn shape_in(env: ExecutionEnv, node: NodeIr, i: int) -> Option<Seq<i64>> {
    if i < node.inputs@.len() {
        env.shape_at(node.input_name(i))
    } else {
        None
    }
}

pub fn input_shape(env: &ExecutionEnv, node: &NodeIr, i: usize) -> (r: Option<Vec<i64>>)
    ensures
        optional(r) == shape_in(*env, *node, i as int),
{
    if i >= node.inputs.len() {
        return None;
    }
    match env.shape_of(node.inputs[i].as_str()) {
        Ok(s) => Some(s),
        Err(_) => None,
    }
}

// --- results ----------------------------------------------------------------------------

/// The work that a plan is.
pub open spec fn plan_work(p: Option<PlanView>) -> Option<WorkView> {
    match p {
        Some(v) => Some(WorkView::Plan(v)),
        None => None,
    }
}

pub fn as_plan(r: Result<Plan>, Ghost(s): Ghost<Option<PlanView>>) -> (w: Result<Work>)
    requires
        planned(r, s),
    ensures
        works(w, plan_work(s)),
{
    match r {
        Ok(p) => Ok(Work::Plan(p)),
        Err(e) => Err(e),
    }
}

/// One tensor as the result of an operation on the host, where it stays within what it can
/// hold.
pub open spec fn result_work(ready: bool, t: Outcome<TensorView>) -> Option<WorkView> {
    if !ready {
        None
    } else {
        match t {
            Ok(v) => Some(WorkView::Results(seq![v])),
            Err(_) => None,
        }
    }
}

pub fn one_result(t: HostTensor) -> (w: Work)
    ensures
        w@ == WorkView::Results(seq![t@]),
{
    let ghost v = t@;
    let r: Vec<HostTensor> = vec![t];
    assert(r@.map_values(|t: HostTensor| t@) =~= seq![v]);
    Work::Results(r)
}

pub fn as_result(r: Result<HostTensor>, Ghost(s): Ghost<Outcome<TensorView>>) -> (w: Result<Work>)
    requires
        gives(r, s),
    ensures
        works(w, result_work(true, s)),
{
    match r {
        Ok(t) => Ok(one_result(t)),
        Err(_) => Err(backend_error("the operation on the host failed")),
    }
}

pub fn refused<T>() -> (r: Result<T>)
    ensures
        r matches Err(e) && e.kind() == Kind::Backend,
{
    Err(backend_error("the node cannot be run"))
}

} // verus!
