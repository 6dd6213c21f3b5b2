//! Values of a running graph: where they are and what moving them takes.

use crate::cache::{UploadKey, UploadKeyView};
use crate::device::{DeviceBuffer, DeviceTensor, DeviceView, Tensor};
use crate::error::{invalid_tensor, Kind, Result};
use crate::graph::{storage_len, storage_of, InitializerIr, TensorView};
use crate::host_ops::{copy_dims, elements, fault, HostTensor, Outcome, FLOAT};
use crate::names::NameMap;
use crate::shape::{count_of, element_count};
use crate::text;
use vstd::prelude::*;

verus! {

/// The bytes that a device buffer for `n` elements takes: the storage of the elements, in
/// whole words and at least one.
pub open spec fn device_bytes(dtype: i32, n: int) -> Outcome<int> {
    match storage_of(dtype, n) {
        Some(s) => if s + 3 > usize::MAX {
            Err(Kind::Tensor)
        } else if s == 0 {
            Ok(4int)
        } else {
            Ok((s + 3) / 4 * 4)
        },
        None => Err(Kind::Tensor),
    }
}

/// Device bytes, aligned to a word of four bytes with a minimum of one word.
pub fn device_storage_bytes(dtype: i32, element_count: usize) -> (r: Result<u64>)
    ensures
        match (r, device_bytes(dtype, element_count as int)) {
            (Ok(b), Ok(n)) => b == n,
            (Err(e), Err(k)) => e.kind() == k,
            _ => false,
        },
{
    match storage_len(dtype, element_count) {
        None => Err(invalid_tensor("data type has no fixed-size storage")),
        Some(len) => match len.checked_add(3) {
            None => Err(invalid_tensor("buffer size overflow")),
            Some(m) => {
                let aligned: usize = m / 4 * 4;
                if aligned < 4 {
                    Ok(4)
                } else {
                    Ok(aligned as u64)
                }
            },
        },
    }
}

/// A device buffer is made of whole words, has at least one, and holds its elements.
pub proof fn law_device_words(dtype: i32, n: int)
    requires
        n >= 0,
        device_bytes(dtype, n) is Ok,
    ensures
        device_bytes(dtype, n)->Ok_0 % 4 == 0,
        device_bytes(dtype, n)->Ok_0 >= 4,
        device_bytes(dtype, n)->Ok_0 >= storage_of(dtype, n)->Some_0,
        device_bytes(dtype, n)->Ok_0 < storage_of(dtype, n)->Some_0 + 5,
{
    let bits = crate::graph::code_bits(dtype)->Some_0;
    assert(n * bits >= 0) by (nonlinear_arith)
        requires
            n >= 0,
            bits >= 0,
    ;
}

// --- values of a run --------------------------------------------------------------------

/// Up to how many bytes a tensor is read back, or computed, on the host.
pub const SMALL_HOST_BYTES: usize = 4096;

/// The values of a run by name, on the host or on the device, beside the constants of the
/// graph. Small tensors that were read back are remembered.
pub struct ExecutionEnv<'a> {
    pub values: NameMap<Tensor>,
    pub initializers: &'a NameMap<InitializerIr>,
    pub host_cache: NameMap<HostTensor>,
}

/// Where a host copy of a value comes from.
#[derive(Debug, PartialEq)]
pub enum Fetch {
    /// It is here.
    Here(HostTensor),
    /// As many bytes have to be read from a buffer of the device.
    Download(u64, usize),
}

/// What bringing a value to the device takes.
#[derive(Debug, PartialEq)]
pub enum Placement {
    /// It is there.
    There,
    /// A constant, which is brought once and kept under its name, in a buffer of so many bytes.
    Constant(UploadKey, u64),
    /// The bytes go to a new buffer of so many bytes.
    Upload(HostTensor, u64),
}

/// Whether a fetch is what `s` says: the tensor, or a buffer and a number of bytes.
pub enum FetchView {
    Here(TensorView),
    Download(u64, int),
}

impl View for Fetch {
    type V = FetchView;

    open spec fn view(&self) -> FetchView {
        match *self {
            Fetch::Here(t) => FetchView::Here(t@),
            Fetch::Download(b, n) => FetchView::Download(b, n as int),
        }
    }
}

pub enum PlacementView {
    There,
    Constant(UploadKeyView, int),
    Upload(TensorView, int),
}

impl View for Placement {
    type V = PlacementView;

    open spec fn view(&self) -> PlacementView {
        match *self {
            Placement::There => PlacementView::There,
            Placement::Constant(k, b) => PlacementView::Constant(k@, b as int),
            Placement::Upload(t, b) => PlacementView::Upload(t@, b as int),
        }
    }
}

/// A tensor on the device.
pub open spec fn device_of(t: Tensor) -> Option<DeviceTensor> {
    match t {
        Tensor::Device(d) => Some(d),
        Tensor::Host(_) => None,
    }
}

fn copy_tensor(t: &HostTensor) -> (r: HostTensor)
    ensures
        r@ == t@,
{
    HostTensor {
        dtype: t.dtype,
        shape: copy_dims(t.shape.as_slice()),
        data: t.data.clone(),
    }
}

impl<'a> ExecutionEnv<'a> {
    pub open spec fn wf(&self) -> bool {
        self.values.wf() && self.initializers.wf() && self.host_cache.wf()
    }

    /// The tensor that is on the device under `name`.
    pub open spec fn device_at(self, name: Seq<char>) -> Option<DeviceTensor> {
        if self.values.has(name) {
            device_of(self.values.at(name))
        } else {
            None
        }
    }

    /// The type of the value under `name`: that of the run, else that of the constant.
    pub open spec fn dtype_at(self, name: Seq<char>) -> Option<i32> {
        if self.values.has(name) {
            Some(
                match self.values.at(name) {
                    Tensor::Device(d) => d.dtype,
                    Tensor::Host(h) => h.dtype,
                },
            )
        } else if self.initializers.has(name) {
            Some(self.initializers.at(name).dtype)
        } else {
            None
        }
    }

    /// The shape of the value under `name`: that of the run, else that of the constant.
    pub open spec fn shape_at(self, name: Seq<char>) -> Option<Seq<i64>> {
        if self.values.has(name) {
            Some(
                match self.values.at(name) {
                    Tensor::Device(d) => d.shape@,
                    Tensor::Host(h) => h.shape@,
                },
            )
        } else if self.initializers.has(name) {
            Some(self.initializers.at(name).shape@)
        } else {
            None
        }
    }

    /// Where a host copy of the value under `name` comes from. A constant never changes and is
    /// on the host anyway.
    pub open spec fn fetch_of(self, name: Seq<char>) -> Outcome<FetchView> {
        if self.initializers.has(name) {
            Ok(FetchView::Here(self.initializers.at(name)@))
        } else if self.values.has(name) {
            match self.values.at(name) {
                Tensor::Host(h) => Ok(FetchView::Here(h@)),
                Tensor::Device(d) => if self.host_cache.has(name) {
                    Ok(FetchView::Here(self.host_cache.at(name)@))
                } else {
                    match storage_of(d.dtype, d.elem_count as int) {
                        None => Err(Kind::Tensor),
                        Some(n) => if n == 0 {
                            Ok(
                                FetchView::Here(
                                    TensorView {
                                        dtype: d.dtype,
                                        shape: d.shape@,
                                        data: Seq::empty(),
                                    },
                                ),
                            )
                        } else {
                            Ok(FetchView::Download(d.buf.handle(), n))
                        },
                    }
                },
            }
        } else {
            Err(Kind::Tensor)
        }
    }

    /// The environment of a run of a graph with these constants.
    pub fn new(initializers: &'a NameMap<InitializerIr>) -> (r: Self)
        requires
            initializers.wf(),
        ensures
            r.wf(),
            *r.initializers == *initializers,
            r.values.map() == Map::<Seq<char>, Tensor>::empty(),
            r.host_cache.map() == Map::<Seq<char>, HostTensor>::empty(),
    {
        ExecutionEnv { values: NameMap::new(), initializers, host_cache: NameMap::new() }
    }

    pub fn value(&self, name: &str) -> (r: Option<&Tensor>)
        ensures
            match r {
                Some(t) => self.values.has(name@) && *t == self.values.at(name@),
                None => !self.values.has(name@),
            },
    {
        self.values.get(name)
    }

    pub fn contains_runtime_value(&self, name: &str) -> (r: bool)
        ensures
            r == self.values.has(name@),
    {
        self.values.contains_key(name)
    }

    /// The constant under `name`.
    pub fn initializer(&self, name: &str) -> (r: Option<&InitializerIr>)
        ensures
            match r {
                Some(t) => self.initializers.has(name@) && *t == self.initializers.at(name@),
                None => !self.initializers.has(name@),
            },
    {
        self.initializers.get(name)
    }

    /// Whether the value is a constant of the graph, so that what is derived from it can be
    /// kept under its name.
    pub fn is_initializer(&self, name: &str) -> (r: bool)
        ensures
            r == self.initializers.has(name@),
    {
        self.initializers.contains_key(name)
    }

    pub fn on_device(&self, name: &str) -> (r: bool)
        ensures
            r == (self.device_at(name@) is Some),
    {
        match self.values.get(name) {
            Some(Tensor::Device(_)) => true,
            _ => false,
        }
    }

    /// The bytes of the value on the host, where reading them does not take the device.
    pub open spec fn host_bytes(self, name: Seq<char>) -> Option<int> {
        if self.values.has(name) {
            match self.values.at(name) {
                Tensor::Host(h) => Some(h.data@.len() as int),
                Tensor::Device(_) => None,
            }
        } else if self.initializers.has(name) {
            Some(self.initializers.at(name).data@.len() as int)
        } else {
            None
        }
    }

    /// Whether the value is on the host and has at most `max_bytes`.
    pub fn host_resident_small(&self, name: &str, max_bytes: usize) -> (r: bool)
        ensures
            r == (self.host_bytes(name@) matches Some(n) && n <= max_bytes),
    {
        match self.values.get(name) {
            Some(Tensor::Host(t)) => t.data.len() <= max_bytes,
            Some(Tensor::Device(_)) => false,
            None => match self.initializers.get(name) {
                Some(i) => i.data.len() <= max_bytes,
                None => false,
            },
        }
    }

    /// The tensor on the device under `name`.
    pub fn device(&self, name: &str) -> (r: Result<&DeviceTensor>)
        ensures
            match r {
                Ok(d) => self.device_at(name@) == Some(*d),
                Err(e) => self.device_at(name@) is None && e.kind() == Kind::Tensor,
            },
    {
        match self.values.get(name) {
            Some(Tensor::Device(d)) => Ok(d),
            _ => Err(invalid_tensor("device value not present")),
        }
    }

    pub fn dtype_of(&self, name: &str) -> (r: Result<i32>)
        ensures
            match r {
                Ok(d) => self.dtype_at(name@) == Some(d),
                Err(e) => self.dtype_at(name@) is None && e.kind() == Kind::Tensor,
            },
    {
        match self.values.get(name) {
            Some(Tensor::Device(d)) => Ok(d.dtype),
            Some(Tensor::Host(h)) => Ok(h.dtype),
            None => match self.initializers.get(name) {
                Some(i) => Ok(i.dtype),
                None => Err(invalid_tensor("data type not available")),
            },
        }
    }

    pub fn shape_of(&self, name: &str) -> (r: Result<Vec<i64>>)
        ensures
            match (r, self.shape_at(name@)) {
                (Ok(s), Some(v)) => s@ == v,
                (Err(e), None) => e.kind() == Kind::Tensor,
                _ => false,
            },
    {
        match self.values.get(name) {
            Some(Tensor::Device(d)) => Ok(copy_dims(d.shape.as_slice())),
            Some(Tensor::Host(h)) => Ok(copy_dims(h.shape.as_slice())),
            None => match self.initializers.get(name) {
                Some(i) => Ok(copy_dims(i.shape.as_slice())),
                None => Err(invalid_tensor("shape not available")),
            },
        }
    }

    /// The value on the host, or what has to be read from the device for it.
    pub fn host(&self, name: &str) -> (r: Result<Fetch>)
        ensures
            match (r, self.fetch_of(name@)) {
                (Ok(f), Ok(v)) => f@ == v,
                (Err(e), Err(k)) => e.kind() == k,
                _ => false,
            },
    {
        match self.initializers.get(name) {
            Some(i) => {
                return Ok(Fetch::Here(i.to_host()));
            },
            None => {},
        }
        match self.values.get(name) {
            Some(Tensor::Host(h)) => Ok(Fetch::Here(copy_tensor(h))),
            Some(Tensor::Device(d)) => {
                match self.host_cache.get(name) {
                    Some(h) => {
                        return Ok(Fetch::Here(copy_tensor(h)));
                    },
                    None => {},
                }
                match storage_len(d.dtype, d.elem_count) {
                    None => Err(invalid_tensor("data type has no fixed-size storage")),
                    Some(n) => if n == 0 {
                        let data: Vec<u8> = Vec::new();
                        assert(data@ =~= Seq::empty());
                        Ok(
                            Fetch::Here(
                                HostTensor {
                                    dtype: d.dtype,
                                    shape: copy_dims(d.shape.as_slice()),
                                    data,
                                },
                            ),
                        )
                    } else {
                        Ok(Fetch::Download(d.buffer(), n))
                    },
                }
            },
            None => Err(invalid_tensor("host value not present")),
        }
    }

    /// The host copy of the value under `name` on the device, from the bytes that were read;
    /// it is remembered where it is small.
    pub fn fetched(&mut self, name: &str, data: Vec<u8>) -> (r: Result<HostTensor>)
        requires
            old(self).wf(),
        ensures
            final(self).wf(),
            final(self).values == old(self).values,
            *final(self).initializers == *old(self).initializers,
            match (r, old(self).device_at(name@)) {
                (Ok(t), Some(d)) => {
                    &&& t@ == (TensorView { dtype: d.dtype, shape: d.shape@, data: data@ })
                    &&& if data@.len() <= SMALL_HOST_BYTES {
                        &&& final(self).host_cache.has(name@)
                        &&& final(self).host_cache.at(name@)@ == t@
                        &&& final(self).host_cache.map().remove(name@)
                            == old(self).host_cache.map().remove(name@)
                    } else {
                        final(self).host_cache == old(self).host_cache
                    }
                },
                (Err(e), None) => e.kind() == Kind::Tensor && final(self).host_cache
                    == old(self).host_cache,
                _ => false,
            },
    {
        let t = match self.values.get(name) {
            Some(Tensor::Device(d)) => HostTensor {
                dtype: d.dtype,
                shape: copy_dims(d.shape.as_slice()),
                data,
            },
            _ => {
                return Err(invalid_tensor("device value not present"));
            },
        };
        if t.data.len() <= SMALL_HOST_BYTES {
            self.host_cache.insert(text::owned(name), copy_tensor(&t));
            proof {
                assert(self.host_cache.map().remove(name@) =~= old(self).host_cache.map().remove(
                    name@,
                ));
            }
        }
        Ok(t)
    }

    /// What bringing a constant to the device takes.
    pub open spec fn constant_placement(self, name: Seq<char>) -> Outcome<PlacementView> {
        let i = self.initializers.at(name);
        match count_of(i.shape@) {
            None => Err(Kind::Shape),
            Some(n) => match device_bytes(i.dtype, n) {
                Err(k) => Err(k),
                Ok(b) => Ok(
                    PlacementView::Constant(
                        UploadKeyView { name, dtype: i.dtype, bytes: i.data@.len() as int },
                        b,
                    ),
                ),
            },
        }
    }

    /// What bringing a tensor of the host to the device takes.
    pub open spec fn upload_placement(t: TensorView) -> Outcome<PlacementView> {
        match fault(t) {
            Some(k) => Err(k),
            None => match device_bytes(t.dtype, elements(t)) {
                Err(k) => Err(k),
                Ok(b) => Ok(PlacementView::Upload(t, b)),
            },
        }
    }

    /// What having the value on the device, with its own type, takes.
    pub open spec fn placement_of(self, name: Seq<char>) -> Outcome<PlacementView> {
        if self.device_at(name) is Some {
            Ok(PlacementView::There)
        } else if self.initializers.has(name) {
            if self.values.has(name) {
                Self::upload_placement(self.initializers.at(name)@)
            } else {
                self.constant_placement(name)
            }
        } else if self.values.has(name) {
            match self.values.at(name) {
                Tensor::Host(h) => Self::upload_placement(h@),
                Tensor::Device(_) => Ok(PlacementView::There),
            }
        } else {
            Err(Kind::Tensor)
        }
    }

    /// What having the value on the device as single-precision numbers takes: other types are
    /// refused.
    pub open spec fn float_placement_of(self, name: Seq<char>) -> Outcome<PlacementView> {
        if self.device_at(name) is Some {
            Ok(PlacementView::There)
        } else if self.initializers.has(name) && self.initializers.at(name).dtype != FLOAT {
            Err(Kind::Tensor)
        } else {
            match self.placement_of(name) {
                Ok(PlacementView::Upload(t, b)) => if t.dtype == FLOAT {
                    Ok(PlacementView::Upload(t, b))
                } else {
                    Err(Kind::Tensor)
                },
                p => p,
            }
        }
    }

    fn upload(t: HostTensor) -> (r: Result<Placement>)
        ensures
            match (r, Self::upload_placement(t@)) {
                (Ok(p), Ok(v)) => p@ == v,
                (Err(e), Err(k)) => e.kind() == k,
                _ => false,
            },
    {
        match t.validate() {
            Ok(_) => {},
            Err(e) => {
                return Err(e);
            },
        }
        match device_storage_bytes(t.dtype, t.elem_count()) {
            Ok(b) => Ok(Placement::Upload(t, b)),
            Err(e) => Err(e),
        }
    }

    /// What having the value on the device, with its own type, takes.
    pub fn ensure_device_dtype(&self, name: &str) -> (r: Result<Placement>)
        ensures
            match (r, self.placement_of(name@)) {
                (Ok(p), Ok(v)) => p@ == v,
                (Err(e), Err(k)) => e.kind() == k,
                _ => false,
            },
    {
        if self.on_device(name) {
            return Ok(Placement::There);
        }
        match self.initializers.get(name) {
            Some(i) => {
                if self.values.contains_key(name) {
                    return Self::upload(i.to_host());
                }
                let n: usize = match element_count(i.shape.as_slice()) {
                    Ok(n) => n,
                    Err(e) => {
                        return Err(e);
                    },
                };
                match device_storage_bytes(i.dtype, n) {
                    Ok(b) => Ok(
                        Placement::Constant(
                            UploadKey { name: text::owned(name), dtype: i.dtype, bytes: i.data.len() },
                            b,
                        ),
                    ),
                    Err(e) => Err(e),
                }
            },
            None => match self.values.get(name) {
                Some(Tensor::Host(h)) => Self::upload(copy_tensor(h)),
                _ => Err(invalid_tensor("host value not present")),
            },
        }
    }

    /// What having the value on the device as single-precision numbers takes.
    pub fn ensure_device(&self, name: &str) -> (r: Result<Placement>)
        ensures
            match (r, self.float_placement_of(name@)) {
                (Ok(p), Ok(v)) => p@ == v,
                (Err(e), Err(k)) => e.kind() == k,
                _ => false,
            },
    {
        if self.on_device(name) {
            return Ok(Placement::There);
        }
        match self.initializers.get(name) {
            Some(i) => {
                if i.dtype != FLOAT {
                    return Err(invalid_tensor("a tensor of single-precision numbers is needed"));
                }
            },
            None => {
                match self.values.get(name) {
                    Some(Tensor::Host(h)) => {
                        match h.validate() {
                            Ok(_) => {
                                if h.dtype != FLOAT {
                                    return Err(
                                        invalid_tensor(
                                            "a tensor of single-precision numbers is needed",
                                        ),
                                    );
                                }
                            },
                            Err(e) => {
                                return Err(e);
                            },
                        }
                    },
                    _ => {},
                }
            },
        }
        self.ensure_device_dtype(name)
    }

    /// The tensor that a placement leaves on the device in the buffer `handle`.
    pub open spec fn placed_tensor(self, p: PlacementView, handle: u64) -> Option<DeviceView> {
        match p {
            PlacementView::There => None,
            PlacementView::Constant(k, _) => {
                let i = self.initializers.at(k.name);
                Some(
                    DeviceView {
                        dtype: i.dtype,
                        shape: i.shape@,
                        elem_count: (count_of(i.shape@)->Some_0) as usize,
                        buf: DeviceBuffer::Borrowed(handle),
                    },
                )
            },
            PlacementView::Upload(t, _) => Some(
                DeviceView {
                    dtype: t.dtype,
                    shape: t.shape,
                    elem_count: elements(t) as usize,
                    buf: DeviceBuffer::Owned(handle),
                },
            ),
        }
    }

    /// Records that a placement was carried out with the buffer `handle`. A buffer that the
    /// run owned under this name is returned, to be given back.
    pub fn placed(&mut self, name: &str, p: &Placement, handle: u64) -> (r: Option<u64>)
        requires
            old(self).wf(),
            p@ matches PlacementView::Constant(k, _) ==> k.name == name@ && old(
                self,
            ).initializers.has(name@) && count_of(old(self).initializers.at(name@).shape@) is Some,
            p@ matches PlacementView::Upload(t, _) ==> fault(t) is None,
        ensures
            final(self).wf(),
            *final(self).initializers == *old(self).initializers,
            match old(self).placed_tensor(p@, handle) {
                None => *final(self) == *old(self) && r is None,
                Some(d) => {
                    &&& final(self).device_at(name@) matches Some(t) && t@ == d
                    &&& final(self).values.map().remove(name@) == old(self).values.map().remove(
                        name@,
                    )
                    &&& final(self).host_cache.map() == old(self).host_cache.map().remove(name@)
                    &&& r == (if old(self).values.has(name@) {
                        old(self).values.at(name@).owned()
                    } else {
                        None
                    })
                },
            },
    {
        match p {
            Placement::There => None,
            Placement::Constant(_, _) => {
                let (dtype, shape, n): (i32, Vec<i64>, usize) = match self.initializers.get(name) {
                    Some(i) => {
                        let n: usize = match element_count(i.shape.as_slice()) {
                            Ok(n) => n,
                            Err(_) => 0,
                        };
                        (i.dtype, copy_dims(i.shape.as_slice()), n)
                    },
                    None => (0, Vec::new(), 0),
                };
                self.set(
                    name,
                    Tensor::Device(
                        DeviceTensor {
                            dtype,
                            shape,
                            elem_count: n,
                            buf: DeviceBuffer::Borrowed(handle),
                        },
                    ),
                )
            },
            Placement::Upload(t, _) => {
                let n: usize = t.elem_count();
                self.set(
                    name,
                    Tensor::Device(
                        DeviceTensor {
                            dtype: t.dtype,
                            shape: copy_dims(t.shape.as_slice()),
                            elem_count: n,
                            buf: DeviceBuffer::Owned(handle),
                        },
                    ),
                )
            },
        }
    }

    /// Gives a value its name; a host copy that was remembered for the name is forgotten. A
    /// buffer that the run owned under this name is returned, to be given back.
    pub fn set(&mut self, name: &str, tensor: Tensor) -> (r: Option<u64>)
        requires
            old(self).wf(),
        ensures
            final(self).wf(),
            *final(self).initializers == *old(self).initializers,
            final(self).values.map() == old(self).values.map().insert(name@, tensor),
            final(self).host_cache.map() == old(self).host_cache.map().remove(name@),
            r == (if old(self).values.has(name@) {
                old(self).values.at(name@).owned()
            } else {
                None
            }),
    {
        let was = self.values.insert(text::owned(name), tensor);
        self.host_cache.remove(name);
        match was {
            Some(t) => t.owned_buffer(),
            None => None,
        }
    }

    /// Moves a value to another name. A buffer that the run owned under that name is returned,
    /// to be given back.
    pub fn move_value(&mut self, from: &str, to: &str) -> (r: Result<Option<u64>>)
        requires
            old(self).wf(),
        ensures
            final(self).wf(),
            *final(self).initializers == *old(self).initializers,
            match r {
                Ok(b) => {
                    &&& old(self).values.has(from@)
                    &&& final(self).values.map() == old(self).values.map().remove(from@).insert(
                        to@,
                        old(self).values.at(from@),
                    )
                    &&& final(self).host_cache.map() == old(self).host_cache.map().remove(
                        from@,
                    ).remove(to@)
                    &&& b == (if from@ != to@ && old(self).values.has(to@) {
                        old(self).values.at(to@).owned()
                    } else {
                        None
                    })
                },
                Err(e) => {
                    &&& !old(self).values.has(from@)
                    &&& e.kind() == Kind::Tensor
                    &&& final(self).values.map() == old(self).values.map()
                    &&& final(self).host_cache == old(self).host_cache
                },
            },
    {
        match self.values.remove(from) {
            None => {
                assert(self.values.map() =~= old(self).values.map());
                Err(invalid_tensor("value not produced by the selected branch"))
            },
            Some(value) => {
                let was = self.values.insert(text::owned(to), value);
                self.host_cache.remove(from);
                self.host_cache.remove(to);
                Ok(
                    match was {
                        Some(t) => t.owned_buffer(),
                        None => None,
                    },
                )
            },
        }
    }

    /// Takes a value that the run owns out of it, so that it outlives the run.
    pub fn take_device(&mut self, name: &str) -> (r: Result<DeviceTensor>)
        requires
            old(self).wf(),
        ensures
            final(self).wf(),
            *final(self).initializers == *old(self).initializers,
            match r {
                Ok(d) => {
                    &&& old(self).device_at(name@) == Some(d)
                    &&& d.buf is Owned
                    &&& final(self).values.map() == old(self).values.map().remove(name@)
                    &&& final(self).host_cache.map() == old(self).host_cache.map().remove(name@)
                },
                Err(e) => {
                    &&& old(self).device_at(name@) matches Some(d) ==> !(d.buf is Owned)
                    &&& e.kind() == Kind::Tensor
                    &&& *final(self) == *old(self)
                },
            },
    {
        let owned: bool = match self.values.get(name) {
            Some(t) => t.owned_buffer().is_some(),
            None => false,
        };
        if !owned {
            return Err(invalid_tensor("the value is not an owned device output"));
        }
        match self.values.remove(name) {
            Some(Tensor::Device(d)) => {
                self.host_cache.remove(name);
                Ok(d)
            },
            _ => Err(invalid_tensor("device value not present")),
        }
    }

    /// Drops a value that is not read again. A buffer that the run owned under this name is
    /// returned, for the next allocation.
    pub fn release(&mut self, name: &str) -> (r: Option<u64>)
        requires
            old(self).wf(),
        ensures
            final(self).wf(),
            *final(self).initializers == *old(self).initializers,
            final(self).values.map() == old(self).values.map().remove(name@),
            final(self).host_cache.map() == old(self).host_cache.map().remove(name@),
            r == (if old(self).values.has(name@) {
                old(self).values.at(name@).owned()
            } else {
                None
            }),
    {
        self.host_cache.remove(name);
        match self.values.remove(name) {
            Some(t) => t.owned_buffer(),
            None => None,
        }
    }

    /// Ends the run: the buffers that it owned, to be given back. What was lent stays with
    /// whoever lent it.
    pub fn finish(self) -> (r: Vec<u64>)
        ensures
            r@ == owned_buffers(self.values.entries@),
    {
        let n: usize = self.values.entries.len();
        let mut r: Vec<u64> = Vec::new();
        let mut i: usize = 0;
        assert(self.values.entries@.take(0) =~= Seq::empty());
        while i < n
            invariant
                i <= n,
                n == self.values.entries@.len(),
                r@ == owned_buffers(self.values.entries@.take(i as int)),
            decreases n - i,
        {
            assert(self.values.entries@.take(i + 1).drop_last() =~= self.values.entries@.take(
                i as int,
            ));
            match self.values.entries[i].1.owned_buffer() {
                Some(b) => {
                    r.push(b);
                },
                None => {},
            }
            i += 1;
        }
        assert(self.values.entries@.take(n as int) =~= self.values.entries@);
        r
    }
}

/// The buffers that the values own, in order.
pub open spec fn owned_buffers(entries: Seq<(String, Tensor)>) -> Seq<u64>
    decreases entries.len(),
{
    if entries.len() == 0 {
        Seq::empty()
    } else {
        let rest = owned_buffers(entries.drop_last());
        match entries.last().1.owned() {
            Some(b) => rest.push(b),
            None => rest,
        }
    }
}

/// What is on the device is not brought there again.
pub proof fn law_placed_once(env: ExecutionEnv, name: Seq<char>)
    requires
        env.device_at(name) is Some,
    ensures
        env.placement_of(name) == Ok::<PlacementView, Kind>(PlacementView::There),
        env.float_placement_of(name) == Ok::<PlacementView, Kind>(PlacementView::There),
{
}

/// The value of a constant that the run has not replaced is read without the device.
pub proof fn law_constants_stay(env: ExecutionEnv, name: Seq<char>)
    requires
        env.initializers.has(name),
    ensures
        env.fetch_of(name) == Ok::<FetchView, Kind>(
            FetchView::Here(env.initializers.at(name)@),
        ),
{
}

} // verus!
