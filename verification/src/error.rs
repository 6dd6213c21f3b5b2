//! The errors of the engine.

use crate::text;
use vstd::prelude::*;

verus! {

/// What can go wrong while loading or running a graph.
#[derive(Debug, Clone, PartialEq, Eq)]
pub enum Error {
    /// The GPU backend, or the execution that drives it, failed.
    Backend(String),
    /// A shape or an attribute that depends on one cannot be used.
    InvalidShape(String),
    /// A tensor's data type, shape and storage do not agree.
    InvalidTensor(String),
    /// The graph needs something that is not implemented.
    Unsupported(String),
}

/// Which of the errors one is, without its details.
#[derive(Debug, Clone, Copy, PartialEq, Eq, Structural)]
pub enum Kind {
    Backend,
    Shape,
    Tensor,
    Unsupported,
}

pub type Result<T> = core::result::Result<T, Error>;

impl Error {
    /// The error without its details.
    pub open spec fn kind(self) -> Kind {
        match self {
            Error::Backend(_) => Kind::Backend,
            Error::InvalidShape(_) => Kind::Shape,
            Error::InvalidTensor(_) => Kind::Tensor,
            Error::Unsupported(_) => Kind::Unsupported,
        }
    }

    /// The text shown for the error.
    pub open spec fn spec_message(self) -> Seq<char> {
        match self {
            Error::Backend(m) => "Vulkan backend error: "@ + m@,
            Error::InvalidShape(m) => "invalid ONNX shape: "@ + m@,
            Error::InvalidTensor(m) => "invalid ONNX tensor: "@ + m@,
            Error::Unsupported(m) => "unsupported ONNX graph: "@ + m@,
        }
    }

    /// The text shown for the error: what failed, then the details.
    pub fn message(&self) -> (r: String)
        ensures
            r@ == self.spec_message(),
    {
        match self {
            Error::Backend(m) => text::joined("Vulkan backend error: ", m.as_str()),
            Error::InvalidShape(m) => text::joined("invalid ONNX shape: ", m.as_str()),
            Error::InvalidTensor(m) => text::joined("invalid ONNX tensor: ", m.as_str()),
            Error::Unsupported(m) => text::joined("unsupported ONNX graph: ", m.as_str()),
        }
    }
}

/// The backend error with the details `m`.
pub fn backend_error(m: &str) -> (r: Error)
    ensures
        r matches Error::Backend(d) && d@ == m@,
{
    Error::Backend(text::owned(m))
}

/// The shape error with the details `m`.
pub fn invalid_shape(m: &str) -> (r: Error)
    ensures
        r matches Error::InvalidShape(d) && d@ == m@,
{
    Error::InvalidShape(text::owned(m))
}

/// The tensor error with the details `m`.
pub fn invalid_tensor(m: &str) -> (r: Error)
    ensures
        r matches Error::InvalidTensor(d) && d@ == m@,
{
    Error::InvalidTensor(text::owned(m))
}

} // verus!
