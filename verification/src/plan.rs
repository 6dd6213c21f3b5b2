//! What the device is asked to do for one node: the buffers it takes and the commands that
//! fill them.
//!
//! A plan is plain data. Buffers are named by their role, kernels by a value that says which
//! program to run, and the parameters of a kernel are 32-bit words in the order in which the
//! program declares them.

use crate::bytes::{all_le32, push_u32};
use crate::error::{backend_error, Kind, Result};
use crate::execution::{device_bytes, device_storage_bytes};
use crate::host_ops::BinOp;
use vstd::prelude::*;

verus! {

/// A function of one variable.
#[derive(Debug, Clone, Copy, PartialEq, Eq, Structural)]
pub enum UnaryOp {
    Sigmoid,
    Relu,
    Identity,
    Erf,
    Gelu,
    GeluTanh,
    Neg,
    Exp,
    Log,
    Sqrt,
    Abs,
    Tanh,
    Sin,
    Cos,
    Reciprocal,
    /// The slope on negative numbers, as its bits.
    LeakyRelu(u32),
}

/// How a reduction combines elements.
#[derive(Debug, Clone, Copy, PartialEq, Eq, Structural)]
pub enum ReduceKind {
    Mean,
    Sum,
    Max,
    Min,
}

/// The kernels for weights of four bits.
#[derive(Debug, Clone, Copy, PartialEq, Eq, Structural)]
pub enum NbitsKind {
    /// One invocation per output, element by element.
    Scalar,
    /// The inner dimension is split over eight lanes.
    SplitK,
    /// One invocation per output, four elements at a time.
    Tiled,
}

/// The program that a dispatch runs. Different values are different pipelines.
#[derive(Debug, Clone, Copy, PartialEq, Eq, Structural)]
pub enum Kernel {
    Unary(UnaryOp),
    Binary(BinOp),
    Softmax,
    LayerNorm,
    RmsNorm,
    SkipRmsNorm,
    BatchNorm,
    Attention,
    /// Attention on queries and keys whose heads are interleaved: each head is read through the
    /// inverse permutation.
    AttentionRearranged,
    Cast,
    Clip,
    Where,
    Transpose,
    Concat,
    Gather,
    Slice,
    Pad,
    QuantizePartial,
    QuantizeFinal,
    QuantizeApply,
    Quantize,
    Dequantize,
    DequantizeInt32,
    PackColumns,
    FlipSigns,
    /// The integer product on cooperative matrices; the number names the tile variant.
    IntProductTiles(u32),
    /// The integer product with the dot-product instruction.
    IntProductDot,
    /// The integer product on any device.
    IntProduct,
    MatMul,
    MatMulSmall,
    MatVec,
    MatVecReduce,
    /// The product with four-bit weights; the number is the wave width, where it is forced.
    MatMulNbits(NbitsKind, Option<u32>),
    Gemm,
    Conv,
    ConvSmall,
    ConvSplit,
    ConvSplitReduce,
    ConvGrouped,
    ConvInteger,
    ConvTranspose,
    ConvTransposeFill,
    ConvTransposePack,
    ConvTransposeGemm,
    ConvTransposeInterleave,
    MaxPool,
    AveragePool,
    GridSample,
    Reduce(ReduceKind),
    Resize,
}

/// A buffer, by its role in the plan.
#[derive(Debug, Clone, Copy, PartialEq, Eq, Structural)]
pub enum Slot {
    /// The device copy of an input of the node.
    Input(usize),
    /// An output of the node.
    Output(usize),
    /// One of the plan's own buffers.
    Scratch(usize),
    /// The shared buffer that holds one zero.
    Zero,
}

/// The number of work groups along each dimension.
#[derive(Debug, Clone, Copy, PartialEq, Eq, Structural)]
pub struct Grid {
    pub x: u32,
    pub y: u32,
    pub z: u32,
}

/// The name of a buffer that outlives the run: what it is made from, and two dimensions of its
/// layout.
#[derive(Debug, Clone, PartialEq, Eq)]
pub struct PackedKey {
    pub name: String,
    pub rows: usize,
    pub cols: usize,
}

#[verifier::ext_equal]
pub struct PackedKeyView {
    pub name: Seq<char>,
    pub rows: int,
    pub cols: int,
}

impl View for PackedKey {
    type V = PackedKeyView;

    open spec fn view(&self) -> PackedKeyView {
        PackedKeyView { name: self.name@, rows: self.rows as int, cols: self.cols as int }
    }
}

/// A buffer of the plan that is not an output.
#[derive(Debug, Clone, PartialEq, Eq)]
pub enum Scratch {
    /// As many bytes, given back after the run.
    Temporary(u64),
    /// The buffer that is kept under this name, made with as many bytes where there is none.
    Kept(PackedKey, u64),
}

#[verifier::ext_equal]
pub enum ScratchView {
    Temporary(int),
    Kept(PackedKeyView, int),
}

impl View for Scratch {
    type V = ScratchView;

    open spec fn view(&self) -> ScratchView {
        match *self {
            Scratch::Temporary(b) => ScratchView::Temporary(b as int),
            Scratch::Kept(k, b) => ScratchView::Kept(k@, b as int),
        }
    }
}

/// One run of a kernel.
#[derive(Debug, Clone, PartialEq, Eq)]
pub struct Dispatch {
    pub kernel: Kernel,
    pub slots: Vec<Slot>,
    pub push: Vec<u32>,
    pub grid: Grid,
}

#[verifier::ext_equal]
pub struct DispatchView {
    pub kernel: Kernel,
    pub slots: Seq<Slot>,
    pub push: Seq<u32>,
    pub grid: Grid,
}

impl View for Dispatch {
    type V = DispatchView;

    open spec fn view(&self) -> DispatchView {
        DispatchView {
            kernel: self.kernel,
            slots: self.slots@,
            push: self.push@,
            grid: self.grid,
        }
    }
}

/// What the device does, one after the other.
#[derive(Debug, Clone, PartialEq, Eq)]
pub enum Command {
    Run(Dispatch),
    /// Runs where the plan made the kept buffer of this number, to fill it.
    Once(usize, Dispatch),
    /// Fills a buffer of the plan with bytes of the host.
    Upload(usize, Vec<u8>),
    /// Copies the first bytes of one buffer to another.
    Copy(Slot, Slot, u64),
}

#[verifier::ext_equal]
pub enum CommandView {
    Run(DispatchView),
    Once(int, DispatchView),
    Upload(int, Seq<u8>),
    Copy(Slot, Slot, int),
}

impl View for Command {
    type V = CommandView;

    open spec fn view(&self) -> CommandView {
        match *self {
            Command::Run(d) => CommandView::Run(d@),
            Command::Once(i, d) => CommandView::Once(i as int, d@),
            Command::Upload(i, b) => CommandView::Upload(i as int, b@),
            Command::Copy(a, b, n) => CommandView::Copy(a, b, n as int),
        }
    }
}

/// Where the storage of an output comes from.
#[derive(Debug, Clone, Copy, PartialEq, Eq, Structural)]
pub enum Storage {
    /// A new buffer of as many bytes.
    New(u64),
    /// A kept buffer of the plan, which stays with the cache.
    Scratch(usize),
}

/// A tensor that a plan leaves on the device.
#[derive(Debug, Clone, PartialEq, Eq)]
pub struct Produced {
    pub dtype: i32,
    pub shape: Vec<i64>,
    pub elem_count: usize,
    pub storage: Storage,
}

#[verifier::ext_equal]
pub struct ProducedView {
    pub dtype: i32,
    pub shape: Seq<i64>,
    pub elem_count: int,
    pub storage: Storage,
}

impl View for Produced {
    type V = ProducedView;

    open spec fn view(&self) -> ProducedView {
        ProducedView {
            dtype: self.dtype,
            shape: self.shape@,
            elem_count: self.elem_count as int,
            storage: self.storage,
        }
    }
}

/// What the device does for a node.
#[derive(Debug, Clone, PartialEq, Eq)]
pub struct Plan {
    pub outputs: Vec<Produced>,
    pub scratch: Vec<Scratch>,
    pub commands: Vec<Command>,
}

#[verifier::ext_equal]
pub struct PlanView {
    pub outputs: Seq<ProducedView>,
    pub scratch: Seq<ScratchView>,
    pub commands: Seq<CommandView>,
}

impl View for Plan {
    type V = PlanView;

    open spec fn view(&self) -> PlanView {
        PlanView {
            outputs: self.outputs@.map_values(|p: Produced| p@),
            scratch: self.scratch@.map_values(|s: Scratch| s@),
            commands: self.commands@.map_values(|c: Command| c@),
        }
    }
}

/// Whether `r` is the plan that `s` says, or a refusal where `s` says nothing.
pub open spec fn planned(r: Result<Plan>, s: Option<PlanView>) -> bool {
    match (r, s) {
        (Ok(p), Some(v)) => p@ == v,
        (Err(e), None) => e.kind() == Kind::Backend,
        _ => false,
    }
}

// --- parts ------------------------------------------------------------------------------

/// A new tensor of `n` elements; nothing where its buffer cannot be sized.
pub open spec fn output_of(dtype: i32, shape: Seq<i64>, n: int) -> Option<ProducedView> {
    match device_bytes(dtype, n) {
        Ok(b) => Some(
            ProducedView { dtype, shape, elem_count: n, storage: Storage::New(b as u64) },
        ),
        Err(_) => None,
    }
}

pub fn output(dtype: i32, shape: Vec<i64>, n: usize) -> (r: Result<Produced>)
    ensures
        match (r, output_of(dtype, shape@, n as int)) {
            (Ok(p), Some(v)) => p@ == v,
            (Err(e), None) => e.kind() == Kind::Backend,
            _ => false,
        },
{
    match device_storage_bytes(dtype, n) {
        Ok(b) => Ok(Produced { dtype, shape, elem_count: n, storage: Storage::New(b) }),
        Err(_) => Err(backend_error("the output cannot be stored")),
    }
}

/// The bytes of a buffer for `n` elements.
pub fn buffer_bytes(dtype: i32, n: usize) -> (r: Result<u64>)
    ensures
        match (r, device_bytes(dtype, n as int)) {
            (Ok(b), Ok(v)) => b == v,
            (Err(e), Err(_)) => e.kind() == Kind::Backend,
            _ => false,
        },
{
    match device_storage_bytes(dtype, n) {
        Ok(b) => Ok(b),
        Err(_) => Err(backend_error("a buffer cannot be sized")),
    }
}

pub open spec fn dispatch_of(
    kernel: Kernel,
    slots: Seq<Slot>,
    push: Seq<u32>,
    x: int,
    y: int,
    z: int,
) -> DispatchView {
    DispatchView { kernel, slots, push, grid: Grid { x: x as u32, y: y as u32, z: z as u32 } }
}

pub open spec fn run_of(
    kernel: Kernel,
    slots: Seq<Slot>,
    push: Seq<u32>,
    x: int,
    y: int,
    z: int,
) -> CommandView {
    CommandView::Run(dispatch_of(kernel, slots, push, x, y, z))
}

pub fn run(kernel: Kernel, slots: Vec<Slot>, push: Vec<u32>, x: u32, y: u32, z: u32) -> (r: Command)
    ensures
        r@ == run_of(kernel, slots@, push@, x as int, y as int, z as int),
{
    Command::Run(Dispatch { kernel, slots, push, grid: Grid { x, y, z } })
}

/// A command that fills the kept buffer `i`.
pub fn once(
    i: usize,
    kernel: Kernel,
    slots: Vec<Slot>,
    push: Vec<u32>,
    x: u32,
    y: u32,
    z: u32,
) -> (r: Command)
    ensures
        r@ == CommandView::Once(
            i as int,
            dispatch_of(kernel, slots@, push@, x as int, y as int, z as int),
        ),
{
    Command::Once(i, Dispatch { kernel, slots, push, grid: Grid { x, y, z } })
}

/// One output and no other buffer.
pub open spec fn one_output(out: ProducedView, commands: Seq<CommandView>) -> PlanView {
    PlanView { outputs: seq![out], scratch: Seq::empty(), commands }
}

/// The plan with one output and at most one command.
pub fn simple(out: Produced, command: Option<Command>) -> (r: Plan)
    ensures
        r@ == one_output(
            out@,
            match command {
                Some(c) => seq![c@],
                None => Seq::empty(),
            },
        ),
{
    let mut outputs: Vec<Produced> = Vec::new();
    outputs.push(out);
    let mut commands: Vec<Command> = Vec::new();
    match command {
        Some(c) => {
            commands.push(c);
        },
        None => {},
    }
    let r = Plan { outputs, scratch: Vec::new(), commands };
    assert(r@.outputs =~= seq![out@]);
    assert(r@.scratch =~= Seq::empty());
    assert(r@.commands =~= match command {
        Some(c) => seq![c@],
        None => Seq::empty(),
    });
    r
}

/// The plan made of these parts.
pub fn assembled(outputs: Vec<Produced>, scratch: Vec<Scratch>, commands: Vec<Command>) -> (r: Plan)
    ensures
        r@ == (PlanView {
            outputs: outputs@.map_values(|p: Produced| p@),
            scratch: scratch@.map_values(|s: Scratch| s@),
            commands: commands@.map_values(|c: Command| c@),
        }),
{
    Plan { outputs, scratch, commands }
}

/// The parameter words as the kernel reads them: bytes, least significant first.
pub fn push_bytes(words: &[u32]) -> (r: Vec<u8>)
    ensures
        r@ == all_le32(words@),
{
    let mut r: Vec<u8> = Vec::new();
    let n: usize = words.len();
    let mut i: usize = 0;
    assert(words@.take(0) =~= Seq::empty());
    while i < n
        invariant
            i <= n,
            n == words@.len(),
            r@ == all_le32(words@.take(i as int)),
        decreases n - i,
    {
        assert(words@.take(i + 1).drop_last() =~= words@.take(i as int));
        push_u32(&mut r, words[i]);
        i += 1;
    }
    assert(words@.take(n as int) =~= words@);
    r
}

} // verus!
