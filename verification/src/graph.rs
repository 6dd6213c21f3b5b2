//! Owned representation of an ONNX graph.

use crate::host_ops::{ints_of, HostTensor};
use crate::names::NameMap;
use crate::text;
use vstd::prelude::*;
use vstd::std_specs::convert::TryFromSpecImpl;

verus! {

/// Element type of a tensor. The variants stand in the order of their ONNX codes, from 0.
#[derive(Debug, Clone, Copy, PartialEq, Eq, Hash, Structural)]
pub enum ElementType {
    Undefined,
    Float32,
    Uint8,
    Int8,
    Uint16,
    Int16,
    Int32,
    Int64,
    String,
    Bool,
    Float16,
    Float64,
    Uint32,
    Uint64,
    Complex64,
    Complex128,
    Bfloat16,
    Float8E4M3Fn,
    Float8E4M3Fnuz,
    Float8E5M2,
    Float8E5M2Fnuz,
    Uint4,
    Int4,
    Float4E2M1,
    Uint2,
    Int2,
    Float8E8M0,
}

/// A code that stands for no element type.
#[derive(Debug, Clone, Copy, PartialEq, Eq, Structural)]
pub struct UnknownElementType(pub i32);

/// The element type with the ONNX code `value`.
pub open spec fn element_type(value: i32) -> Option<ElementType> {
    if value == 0 {
        Some(ElementType::Undefined)
    } else if value == 1 {
        Some(ElementType::Float32)
    } else if value == 2 {
        Some(ElementType::Uint8)
    } else if value == 3 {
        Some(ElementType::Int8)
    } else if value == 4 {
        Some(ElementType::Uint16)
    } else if value == 5 {
        Some(ElementType::Int16)
    } else if value == 6 {
        Some(ElementType::Int32)
    } else if value == 7 {
        Some(ElementType::Int64)
    } else if value == 8 {
        Some(ElementType::String)
    } else if value == 9 {
        Some(ElementType::Bool)
    } else if value == 10 {
        Some(ElementType::Float16)
    } else if value == 11 {
        Some(ElementType::Float64)
    } else if value == 12 {
        Some(ElementType::Uint32)
    } else if value == 13 {
        Some(ElementType::Uint64)
    } else if value == 14 {
        Some(ElementType::Complex64)
    } else if value == 15 {
        Some(ElementType::Complex128)
    } else if value == 16 {
        Some(ElementType::Bfloat16)
    } else if value == 17 {
        Some(ElementType::Float8E4M3Fn)
    } else if value == 18 {
        Some(ElementType::Float8E4M3Fnuz)
    } else if value == 19 {
        Some(ElementType::Float8E5M2)
    } else if value == 20 {
        Some(ElementType::Float8E5M2Fnuz)
    } else if value == 21 {
        Some(ElementType::Uint4)
    } else if value == 22 {
        Some(ElementType::Int4)
    } else if value == 23 {
        Some(ElementType::Float4E2M1)
    } else if value == 24 {
        Some(ElementType::Uint2)
    } else if value == 25 {
        Some(ElementType::Int2)
    } else if value == 26 {
        Some(ElementType::Float8E8M0)
    } else {
        None
    }
}

impl TryFromSpecImpl<i32> for ElementType {
    open spec fn obeys_try_from_spec() -> bool {
        true
    }

    open spec fn try_from_spec(value: i32) -> core::result::Result<Self, UnknownElementType> {
        match element_type(value) {
            Some(t) => Ok(t),
            None => Err(UnknownElementType(value)),
        }
    }
}

impl TryFrom<i32> for ElementType {
    type Error = UnknownElementType;

    fn try_from(value: i32) -> (r: core::result::Result<Self, UnknownElementType>) {
        match value {
            0 => Ok(Self::Undefined),
            1 => Ok(Self::Float32),
            2 => Ok(Self::Uint8),
            3 => Ok(Self::Int8),
            4 => Ok(Self::Uint16),
            5 => Ok(Self::Int16),
            6 => Ok(Self::Int32),
            7 => Ok(Self::Int64),
            8 => Ok(Self::String),
            9 => Ok(Self::Bool),
            10 => Ok(Self::Float16),
            11 => Ok(Self::Float64),
            12 => Ok(Self::Uint32),
            13 => Ok(Self::Uint64),
            14 => Ok(Self::Complex64),
            15 => Ok(Self::Complex128),
            16 => Ok(Self::Bfloat16),
            17 => Ok(Self::Float8E4M3Fn),
            18 => Ok(Self::Float8E4M3Fnuz),
            19 => Ok(Self::Float8E5M2),
            20 => Ok(Self::Float8E5M2Fnuz),
            21 => Ok(Self::Uint4),
            22 => Ok(Self::Int4),
            23 => Ok(Self::Float4E2M1),
            24 => Ok(Self::Uint2),
            25 => Ok(Self::Int2),
            26 => Ok(Self::Float8E8M0),
            _ => Err(UnknownElementType(value)),
        }
    }
}

impl UnknownElementType {
    /// The text shown for the error.
    pub fn message(&self) -> (r: String)
        ensures
            r@ == "unknown ONNX tensor element type "@ + text::signed_digits(self.0 as int),
    {
        let digits = text::signed_decimal(self.0 as i64);
        text::joined("unknown ONNX tensor element type ", digits.as_str())
    }
}

impl ElementType {
    /// The number of bits of an element, where it is fixed.
    pub open spec fn bits(self) -> Option<usize> {
        match self {
            ElementType::Float32 | ElementType::Int32 | ElementType::Uint32 => Some(32),
            ElementType::Uint8
            | ElementType::Int8
            | ElementType::Bool
            | ElementType::Float8E4M3Fn
            | ElementType::Float8E4M3Fnuz
            | ElementType::Float8E5M2
            | ElementType::Float8E5M2Fnuz
            | ElementType::Float8E8M0 => Some(8),
            ElementType::Uint16
            | ElementType::Int16
            | ElementType::Float16
            | ElementType::Bfloat16 => Some(16),
            ElementType::Int64
            | ElementType::Float64
            | ElementType::Uint64
            | ElementType::Complex64 => Some(64),
            ElementType::Complex128 => Some(128),
            ElementType::Uint4 | ElementType::Int4 | ElementType::Float4E2M1 => Some(4),
            ElementType::Uint2 | ElementType::Int2 => Some(2),
            ElementType::Undefined | ElementType::String => None,
        }
    }

    /// The number of bits of an element, where it is fixed.
    pub fn bit_width(self) -> (r: Option<usize>)
        ensures
            r == self.bits(),
    {
        match self {
            Self::Float32 | Self::Int32 | Self::Uint32 => Some(32),
            Self::Uint8
            | Self::Int8
            | Self::Bool
            | Self::Float8E4M3Fn
            | Self::Float8E4M3Fnuz
            | Self::Float8E5M2
            | Self::Float8E5M2Fnuz
            | Self::Float8E8M0 => Some(8),
            Self::Uint16 | Self::Int16 | Self::Float16 | Self::Bfloat16 => Some(16),
            Self::Int64 | Self::Float64 | Self::Uint64 | Self::Complex64 => Some(64),
            Self::Complex128 => Some(128),
            Self::Uint4 | Self::Int4 | Self::Float4E2M1 => Some(4),
            Self::Uint2 | Self::Int2 => Some(2),
            Self::Undefined | Self::String => None,
        }
    }

    /// The number of bytes of an element, where it is fixed and at least one.
    pub open spec fn bytes(self) -> Option<usize> {
        match self.bits() {
            Some(b) if b >= 8 => Some((b / 8) as usize),
            _ => None,
        }
    }

    /// The number of bytes of an element, where it is fixed and at least one.
    pub fn byte_width(self) -> (r: Option<usize>)
        ensures
            r == self.bytes(),
    {
        match self.bit_width() {
            Some(bits) if bits >= 8 => Some(bits / 8),
            _ => None,
        }
    }
}

/// The number of bits of an element with the type code `dtype`, where it is fixed.
pub open spec fn code_bits(dtype: i32) -> Option<usize> {
    match element_type(dtype) {
        Some(t) => t.bits(),
        None => None,
    }
}

/// Bytes per element, or zero for types that are unknown, of no fixed size or below a byte.
pub open spec fn size_of_code(dtype: i32) -> usize {
    match element_type(dtype) {
        Some(t) => match t.bytes() {
            Some(b) => b,
            None => 0,
        },
        None => 0,
    }
}

/// Bytes per element, or zero for types that are unknown, of no fixed size or below a byte.
pub fn elem_size(dtype: i32) -> (r: usize)
    ensures
        r == size_of_code(dtype),
{
    match ElementType::try_from(dtype) {
        Ok(t) => match t.byte_width() {
            Some(b) => b,
            None => 0,
        },
        Err(_) => 0,
    }
}

/// The bytes that `n` packed elements take, where the type has a fixed size and the bits can
/// be counted.
pub open spec fn storage_of(dtype: i32, n: int) -> Option<int> {
    match code_bits(dtype) {
        Some(bits) => if n * bits + 7 <= usize::MAX {
            Some((n * bits + 7) / 8)
        } else {
            None
        },
        None => None,
    }
}

/// The bytes that `element_count` packed elements take.
pub fn storage_len(dtype: i32, element_count: usize) -> (r: Option<usize>)
    ensures
        match r {
            Some(s) => storage_of(dtype, element_count as int) == Some(s as int),
            None => storage_of(dtype, element_count as int) is None,
        },
{
    match ElementType::try_from(dtype) {
        Ok(t) => match t.bit_width() {
            Some(bits) => match element_count.checked_mul(bits) {
                Some(n) => match n.checked_add(7) {
                    Some(m) => Some(m / 8),
                    None => None,
                },
                None => None,
            },
            None => None,
        },
        Err(_) => None,
    }
}

/// What a tensor is: element type code, shape and the bytes of its elements.
#[verifier::ext_equal]
pub struct TensorView {
    pub dtype: i32,
    pub shape: Seq<i64>,
    pub data: Seq<u8>,
}

/// A constant tensor.
#[derive(Debug, Clone, PartialEq)]
pub struct InitializerIr {
    /// ONNX code of the element type.
    pub dtype: i32,
    pub shape: Vec<i64>,
    pub data: Vec<u8>,
}

impl View for InitializerIr {
    type V = TensorView;

    open spec fn view(&self) -> TensorView {
        TensorView { dtype: self.dtype, shape: self.shape@, data: self.data@ }
    }
}

impl InitializerIr {
    /// A copy of the tensor.
    pub fn duplicate(&self) -> (r: InitializerIr)
        ensures
            r@ == self@,
    {
        let shape = self.shape.clone();
        let data = self.data.clone();
        assert(shape@ =~= self.shape@);
        assert(data@ =~= self.data@);
        InitializerIr { dtype: self.dtype, shape, data }
    }

    /// The tensor as a host tensor.
    pub fn to_host(&self) -> (r: HostTensor)
        ensures
            r@ == self@,
    {
        let c = self.duplicate();
        HostTensor { dtype: c.dtype, shape: c.shape, data: c.data }
    }
}

/// The value of an attribute. Floating-point numbers are held as their bits.
#[derive(Debug, PartialEq)]
pub enum AttrValue {
    Int(i64),
    Ints(Vec<i64>),
    Float(u32),
    Floats(Vec<u32>),
    String(String),
    Tensor(InitializerIr),
    /// A subgraph, such as a branch of `If`.
    Graph(Box<GraphIr>),
}

impl AttrValue {
    pub fn as_i64(&self) -> (r: Option<i64>)
        ensures
            r == match *self {
                AttrValue::Int(v) => Some(v),
                _ => None::<i64>,
            },
    {
        match self {
            AttrValue::Int(value) => Some(*value),
            _ => None,
        }
    }

    pub fn as_tensor(&self) -> (r: Option<&InitializerIr>)
        ensures
            match r {
                Some(t) => *self == AttrValue::Tensor(*t),
                None => !(self is Tensor),
            },
    {
        match self {
            AttrValue::Tensor(tensor) => Some(tensor),
            _ => None,
        }
    }

    pub fn as_ints(&self) -> (r: Option<&[i64]>)
        ensures
            match r {
                Some(s) => *self matches AttrValue::Ints(v) && s@ == v@,
                None => !(self is Ints),
            },
    {
        match self {
            AttrValue::Ints(values) => Some(values.as_slice()),
            _ => None,
        }
    }

    pub fn as_str(&self) -> (r: Option<&str>)
        ensures
            match r {
                Some(s) => *self matches AttrValue::String(v) && s@ == v@,
                None => !(self is String),
            },
    {
        match self {
            AttrValue::String(value) => Some(value.as_str()),
            _ => None,
        }
    }

    /// The bits of a floating-point attribute.
    pub fn as_f32(&self) -> (r: Option<u32>)
        ensures
            r == match *self {
                AttrValue::Float(v) => Some(v),
                _ => None::<u32>,
            },
    {
        match self {
            AttrValue::Float(value) => Some(*value),
            _ => None,
        }
    }

    pub fn as_graph(&self) -> (r: Option<&GraphIr>)
        ensures
            match r {
                Some(g) => *self == AttrValue::Graph(Box::new(*g)),
                None => !(self is Graph),
            },
    {
        match self {
            AttrValue::Graph(g) => Some(&**g),
            _ => None,
        }
    }
}

/// A node of the graph.
#[derive(Debug, PartialEq)]
pub struct NodeIr {
    /// Operator domain; empty for the standard operators.
    pub domain: String,
    pub op: String,
    /// Operator version that the model asks for.
    pub since_version: i32,
    pub name: String,
    /// Names of the input values; an empty name is a missing optional input.
    pub inputs: Vec<String>,
    pub outputs: Vec<String>,
    pub attrs: NameMap<AttrValue>,
}

/// A graph or subgraph.
#[derive(Debug, PartialEq)]
pub struct GraphIr {
    /// Nodes in topological order.
    pub nodes: Vec<NodeIr>,
    pub initializers: NameMap<InitializerIr>,
    /// Inputs of the graph, without the initializers.
    pub inputs: Vec<String>,
    pub outputs: Vec<String>,
}

impl Default for GraphIr {
    /// The graph without nodes, initializers, inputs and outputs.
    fn default() -> (r: Self)
        ensures
            r.nodes@.len() == 0,
            r.initializers.wf(),
            r.initializers.map() == Map::<Seq<char>, InitializerIr>::empty(),
            r.inputs@.len() == 0,
            r.outputs@.len() == 0,
    {
        GraphIr {
            nodes: Vec::new(),
            initializers: NameMap::new(),
            inputs: Vec::new(),
            outputs: Vec::new(),
        }
    }
}

impl NodeIr {
    /// Whether the node is the standard operator `op`.
    pub open spec fn is_op(self, op: Seq<char>) -> bool {
        self.op@ == op && self.domain@.len() == 0
    }

    /// Whether the node is the standard operator `op`.
    pub fn is_standard(&self, op: &str) -> (r: bool)
        ensures
            r == self.is_op(op@),
    {
        text::same(self.op.as_str(), op) && self.domain.as_str().is_empty()
    }

    /// The name of input `i`, empty where there is none.
    pub open spec fn input_name(self, i: int) -> Seq<char> {
        if 0 <= i < self.inputs@.len() {
            self.inputs@[i]@
        } else {
            Seq::empty()
        }
    }

    /// The name of output `i`, empty where there is none.
    pub open spec fn output_name(self, i: int) -> Seq<char> {
        if 0 <= i < self.outputs@.len() {
            self.outputs@[i]@
        } else {
            Seq::empty()
        }
    }

    /// The integer attribute `name`, or `default`.
    pub open spec fn int_attr(self, name: Seq<char>, default: i64) -> i64 {
        if self.attrs.has(name) && self.attrs.at(name) is Int {
            self.attrs.at(name)->Int_0
        } else {
            default
        }
    }

    /// The integer attribute `name`, or `default`.
    pub fn attr_i64(&self, name: &str, default: i64) -> (r: i64)
        ensures
            r == self.int_attr(name@, default),
    {
        match self.attrs.get(name) {
            Some(v) => match v.as_i64() {
                Some(i) => i,
                None => default,
            },
            None => default,
        }
    }

    /// The integer attribute `name`, where there is one.
    pub open spec fn opt_int_attr(self, name: Seq<char>) -> Option<i64> {
        if self.attrs.has(name) && self.attrs.at(name) is Int {
            Some(self.attrs.at(name)->Int_0)
        } else {
            None
        }
    }

    /// The integer attribute `name`, where there is one.
    pub fn attr_opt_i64(&self, name: &str) -> (r: Option<i64>)
        ensures
            r == self.opt_int_attr(name@),
    {
        match self.attrs.get(name) {
            Some(v) => v.as_i64(),
            None => None,
        }
    }

    /// The list of integers that is the attribute `name`.
    pub open spec fn ints_attr(self, name: Seq<char>) -> Option<Seq<i64>> {
        if self.attrs.has(name) && self.attrs.at(name) is Ints {
            Some((self.attrs.at(name)->Ints_0)@)
        } else {
            None
        }
    }

    /// The list of integers that is the attribute `name`.
    pub fn attr_ints(&self, name: &str) -> (r: Option<&[i64]>)
        ensures
            match r {
                Some(v) => self.ints_attr(name@) == Some(v@),
                None => self.ints_attr(name@) is None,
            },
    {
        match self.attrs.get(name) {
            Some(v) => v.as_ints(),
            None => None,
        }
    }

    /// The text attribute `name`, or `default`.
    pub open spec fn str_attr(self, name: Seq<char>, default: Seq<char>) -> Seq<char> {
        if self.attrs.has(name) && self.attrs.at(name) is String {
            (self.attrs.at(name)->String_0)@
        } else {
            default
        }
    }

    /// The text attribute `name`, or `default`.
    pub fn attr_str<'a>(&'a self, name: &str, default: &'a str) -> (r: &'a str)
        ensures
            r@ == self.str_attr(name@, default@),
    {
        match self.attrs.get(name) {
            Some(v) => match v.as_str() {
                Some(s) => s,
                None => default,
            },
            None => default,
        }
    }

    /// The bits of the floating-point attribute `name`, or `default`.
    pub open spec fn float_attr(self, name: Seq<char>, default: u32) -> u32 {
        if self.attrs.has(name) && self.attrs.at(name) is Float {
            self.attrs.at(name)->Float_0
        } else {
            default
        }
    }

    /// The bits of the floating-point attribute `name`, or `default`.
    pub fn attr_f32(&self, name: &str, default: u32) -> (r: u32)
        ensures
            r == self.float_attr(name@, default),
    {
        match self.attrs.get(name) {
            Some(v) => match v.as_f32() {
                Some(f) => f,
                None => default,
            },
            None => default,
        }
    }

    /// Whether input `i` is there.
    pub open spec fn given(self, i: int) -> bool {
        self.input_name(i).len() > 0
    }

    /// Whether input `i` is there.
    pub fn has_input(&self, i: usize) -> (r: bool)
        ensures
            r == self.given(i as int),
    {
        i < self.inputs.len() && !self.inputs[i].as_str().is_empty()
    }
}

// --- constants --------------------------------------------------------------------------

/// The value that a `Constant` node gives to its first output.
pub open spec fn constant_def(node: NodeIr) -> Option<(Seq<char>, TensorView)> {
    if node.is_op("Constant"@) && node.attrs.has("value"@) && node.attrs.at("value"@) is Tensor
        && node.outputs@.len() > 0 {
        Some((node.outputs@[0]@, (node.attrs.at("value"@)->Tensor_0)@))
    } else {
        None
    }
}

/// **An attribute is what the node holds under its name**; the default stands where there is none,
/// or one of another type.
pub proof fn law_attributes(node: NodeIr, name: Seq<char>, i: i64, f: u32, s: Seq<char>)
    ensures
        !node.attrs.has(name) ==> node.int_attr(name, i) == i && node.opt_int_attr(name) is None
            && node.ints_attr(name) is None && node.float_attr(name, f) == f && node.str_attr(name, s)
            == s,
        node.attrs.has(name) ==> match node.attrs.at(name) {
            AttrValue::Int(v) => node.int_attr(name, i) == v && node.opt_int_attr(name) == Some(v),
            AttrValue::Ints(v) => node.ints_attr(name) == Some(v@),
            AttrValue::Float(v) => node.float_attr(name, f) == v,
            AttrValue::String(v) => node.str_attr(name, s) == v@,
            _ => true,
        },
{
}

/// **Inputs and outputs go by their number**; one with an empty name is not there.
pub proof fn law_inputs(node: NodeIr, i: int)
    requires
        0 <= i,
    ensures
        i < node.inputs@.len() ==> node.input_name(i) == node.inputs@[i]@,
        i >= node.inputs@.len() ==> node.input_name(i).len() == 0,
        i < node.outputs@.len() ==> node.output_name(i) == node.outputs@[i]@,
        i >= node.outputs@.len() ==> node.output_name(i).len() == 0,
        node.given(i) == (i < node.inputs@.len() && node.inputs@[i]@.len() > 0),
{
}

/// The value that the last of the `Constant` nodes for it gives to `name`.
pub open spec fn constant_value(nodes: Seq<NodeIr>, name: Seq<char>) -> Option<TensorView>
    decreases nodes.len(),
{
    if nodes.len() == 0 {
        None
    } else {
        match constant_def(nodes.last()) {
            Some(d) if d.0 == name => Some(d.1),
            _ => constant_value(nodes.drop_last(), name),
        }
    }
}

/// What a table of tensors holds under `name`.
pub open spec fn tensor_under(m: NameMap<InitializerIr>, name: Seq<char>) -> Option<TensorView> {
    if m.has(name) {
        Some(m.at(name)@)
    } else {
        None
    }
}

/// The values of the `Constant` nodes, by output name.
pub fn constant_outputs(nodes: &[NodeIr]) -> (r: NameMap<InitializerIr>)
    ensures
        r.wf(),
        forall|name: Seq<char>| #[trigger] tensor_under(r, name) == constant_value(nodes@, name),
{
    let mut r: NameMap<InitializerIr> = NameMap::new();
    let n: usize = nodes.len();
    let mut i: usize = 0;
    assert(nodes@.take(0) =~= Seq::empty());
    while i < n
        invariant
            n == nodes@.len(),
            i <= n,
            r.wf(),
            forall|name: Seq<char>|
                #[trigger] tensor_under(r, name) == constant_value(nodes@.take(i as int), name),
        decreases n - i,
    {
        let node: &NodeIr = &nodes[i];
        let ghost was = r;
        assert(nodes@.take(i + 1).drop_last() =~= nodes@.take(i as int));
        if node.is_standard("Constant") && node.outputs.len() > 0 {
            match node.attrs.get("value") {
                Some(v) => match v.as_tensor() {
                    Some(t) => {
                        r.insert(node.outputs[0].clone(), t.duplicate());
                    },
                    None => {},
                },
                None => {},
            }
        }
        proof {
            assert forall|name: Seq<char>| #[trigger] tensor_under(r, name) == constant_value(
                nodes@.take(i + 1),
                name,
            ) by {
                assert(tensor_under(was, name) == constant_value(nodes@.take(i as int), name));
            }
        }
        i += 1;
    }
    assert(nodes@.take(n as int) =~= nodes@);
    r
}

/// Whether the axes of the operator may be given as its second input.
pub open spec fn axes_as_input(op: Seq<char>) -> bool {
    op == "ReduceSum"@ || op == "ReduceMean"@ || op == "ReduceMax"@
}

/// The axes that the second input of the node stands for, where they are constant and the
/// node has no attribute for them.
pub open spec fn promoted_axes(
    node: NodeIr,
    initializers: NameMap<InitializerIr>,
) -> Option<Seq<i64>> {
    if axes_as_input(node.op@) && !node.attrs.has("axes"@) && node.input_name(1).len() > 0
        && initializers.has(node.input_name(1)) {
        match ints_of(initializers.at(node.input_name(1))@) {
            Ok(v) => Some(v),
            Err(_) => None,
        }
    } else {
        None
    }
}

/// Turns axes that are given as a constant input into an attribute.
pub fn fold_constant_params(node: &mut NodeIr, initializers: &NameMap<InitializerIr>)
    requires
        old(node).attrs.wf(),
    ensures
        match promoted_axes(*old(node), *initializers) {
            None => *final(node) == *old(node),
            Some(axes) => {
                &&& final(node).domain == old(node).domain
                &&& final(node).op == old(node).op
                &&& final(node).since_version == old(node).since_version
                &&& final(node).name == old(node).name
                &&& final(node).outputs == old(node).outputs
                &&& final(node).inputs@ == old(node).inputs@.take(1)
                &&& final(node).attrs.wf()
                &&& final(node).attrs.has("axes"@)
                &&& final(node).attrs.at("axes"@) matches AttrValue::Ints(v) && v@ == axes
                &&& final(node).attrs.map().remove("axes"@) == old(node).attrs.map()
            },
        },
{
    let op = node.op.as_str();
    if !(text::same(op, "ReduceSum") || text::same(op, "ReduceMean") || text::same(
        op,
        "ReduceMax",
    )) {
        return;
    }
    if node.attrs.contains_key("axes") || node.inputs.len() < 2 || node.inputs[1].as_str().is_empty() {
        return;
    }
    let values = match initializers.get(node.inputs[1].as_str()) {
        Some(init) => init.to_host().to_i64(),
        None => {
            return;
        },
    };
    match values {
        Ok(axes) => {
            node.attrs.insert(text::owned("axes"), AttrValue::Ints(axes));
            node.inputs.truncate(1);
            proof {
                assert(node.attrs.map().remove("axes"@) =~= old(node).attrs.map());
            }
        },
        Err(_) => {},
    }
}

} // verus!
