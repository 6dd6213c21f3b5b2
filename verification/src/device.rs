//! Tensors on the device.
//!
//! A buffer of the device is named by a number. Whoever drives the device keeps the buffers
//! themselves, and gives one back when the library says so.

use crate::error::{invalid_tensor, Kind, Result};
use crate::host_ops::{copy_dims, HostTensor};
use vstd::prelude::*;

verus! {

/// A buffer that outlives one run and goes back to the device with its last user.
#[derive(Debug, PartialEq, Eq)]
pub struct SharedDeviceBuffer {
    pub buffer: Option<u64>,
}

impl SharedDeviceBuffer {
    /// The buffer, which is there until [`SharedDeviceBuffer::retire`] takes it.
    pub fn get(&self) -> (r: u64)
        requires
            self.buffer is Some,
        ensures
            self.buffer == Some(r),
    {
        match self.buffer {
            Some(b) => b,
            None => 0,
        }
    }

    /// Takes the buffer out, to be given back; a second time there is nothing left.
    pub fn retire(&mut self) -> (r: Option<u64>)
        ensures
            r == old(self).buffer,
            final(self).buffer is None,
    {
        let b = self.buffer;
        self.buffer = None;
        b
    }
}

/// Storage on the device, and who gives it back.
#[derive(Debug, Clone, Copy, PartialEq, Eq, Structural)]
pub enum DeviceBuffer {
    /// The run that made it.
    Owned(u64),
    /// Whoever lent it.
    Borrowed(u64),
    /// The last of its users.
    Shared(u64),
}

impl DeviceBuffer {
    /// The buffer itself.
    pub open spec fn handle(self) -> u64 {
        match self {
            DeviceBuffer::Owned(b) => b,
            DeviceBuffer::Borrowed(b) => b,
            DeviceBuffer::Shared(b) => b,
        }
    }

    pub fn get(&self) -> (r: u64)
        ensures
            r == self.handle(),
    {
        match self {
            DeviceBuffer::Owned(b) => *b,
            DeviceBuffer::Borrowed(b) => *b,
            DeviceBuffer::Shared(b) => *b,
        }
    }
}

/// A tensor on the device.
#[derive(Debug, Clone, PartialEq, Eq)]
pub struct DeviceTensor {
    pub dtype: i32,
    pub shape: Vec<i64>,
    pub elem_count: usize,
    pub buf: DeviceBuffer,
}

#[verifier::ext_equal]
pub struct DeviceView {
    pub dtype: i32,
    pub shape: Seq<i64>,
    pub elem_count: usize,
    pub buf: DeviceBuffer,
}

impl View for DeviceTensor {
    type V = DeviceView;

    open spec fn view(&self) -> DeviceView {
        DeviceView {
            dtype: self.dtype,
            shape: self.shape@,
            elem_count: self.elem_count,
            buf: self.buf,
        }
    }
}

impl DeviceTensor {
    pub fn buffer(&self) -> (r: u64)
        ensures
            r == self.buf.handle(),
    {
        self.buf.get()
    }
}

/// A tensor on the device that can be an input of later runs.
#[derive(Debug, Clone, PartialEq, Eq)]
pub struct PersistentTensor {
    pub dtype: i32,
    pub shape: Vec<i64>,
    pub elem_count: usize,
    pub buffer: u64,
}

impl PersistentTensor {
    /// Makes a tensor that a run owns outlive it. What is lent or shared already cannot be.
    pub fn from_owned(tensor: DeviceTensor) -> (r: Result<Self>)
        ensures
            match (r, tensor.buf) {
                (Ok(p), DeviceBuffer::Owned(b)) => {
                    &&& p.dtype == tensor.dtype
                    &&& p.shape@ == tensor.shape@
                    &&& p.elem_count == tensor.elem_count
                    &&& p.buffer == b
                },
                (Err(e), DeviceBuffer::Owned(_)) => false,
                (Ok(_), _) => false,
                (Err(e), _) => e.kind() == Kind::Tensor,
            },
    {
        match tensor.buf {
            DeviceBuffer::Owned(buffer) => Ok(
                PersistentTensor {
                    dtype: tensor.dtype,
                    shape: tensor.shape,
                    elem_count: tensor.elem_count,
                    buffer,
                },
            ),
            _ => Err(invalid_tensor("only an owned graph output can become persistent")),
        }
    }

    /// The tensor as an input of a run, which shares the buffer.
    pub fn as_tensor(&self) -> (r: Tensor)
        ensures
            r matches Tensor::Device(d) && d@ == (DeviceView {
                dtype: self.dtype,
                shape: self.shape@,
                elem_count: self.elem_count,
                buf: DeviceBuffer::Shared(self.buffer),
            }),
    {
        Tensor::Device(
            DeviceTensor {
                dtype: self.dtype,
                shape: copy_dims(self.shape.as_slice()),
                elem_count: self.elem_count,
                buf: DeviceBuffer::Shared(self.buffer),
            },
        )
    }
}

/// A value of a run, on the host or on the device.
#[derive(Debug, Clone, PartialEq)]
pub enum Tensor {
    Device(DeviceTensor),
    Host(HostTensor),
}

impl Tensor {
    /// The buffer that goes back with the value.
    pub open spec fn owned(self) -> Option<u64> {
        match self {
            Tensor::Device(d) => match d.buf {
                DeviceBuffer::Owned(b) => Some(b),
                _ => None,
            },
            Tensor::Host(_) => None,
        }
    }

    /// The buffer that goes back with the value.
    pub fn owned_buffer(&self) -> (r: Option<u64>)
        ensures
            r == self.owned(),
    {
        match self {
            Tensor::Device(d) => match d.buf {
                DeviceBuffer::Owned(b) => Some(b),
                _ => None,
            },
            Tensor::Host(_) => None,
        }
    }
}

} // verus!
