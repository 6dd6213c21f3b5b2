//! The core of an engine that runs ONNX graphs on a GPU, proved with Verus.
//!
//! - [`graph`], [`host_ops`], [`shape`]: graphs, tensors on the host, and operators on them.
//! - [`fusion`]: which nodes a backend can take over together.
//! - [`rewrite`]: what becomes of a graph when it is loaded.
//! - [`plan`], [`interp`]: what the device does for a node, and how a run goes from node to node.
//! - [`execution`], [`device`], [`cache`]: values of a run, and what outlives it.
//! - [`executor`], [`report`]: loading a graph, or saying what it lacks.
//! - [`runner`]: the command line of the model runner.
//!
//! Floating-point numbers are carried as their bits, and buffers of the device by number.

pub mod bits;
pub mod bytes;
pub mod cache;
pub mod decimal;
pub mod device;
pub mod error;
pub mod execution;
pub mod executor;
pub mod floats;
pub mod fusion;
pub mod fusion_laws;
pub mod fusion_names;
pub mod graph;
pub mod host_ops;
pub mod interp;
pub mod names;
pub mod num;
pub mod plan;
pub mod report;
pub mod rewrite;
pub mod runner;
pub mod shaders;
pub mod shape;
pub mod shape_laws;
pub mod text;
pub mod union_find;

pub use cache::KernelCache;
pub use device::{DeviceBuffer, DeviceTensor, PersistentTensor, SharedDeviceBuffer, Tensor};
pub use error::{Error, Result};
pub use execution::{device_storage_bytes, ExecutionEnv};
pub use executor::{Executor, Outputs};
pub use fusion::convex_groups;
pub use graph::{
    constant_outputs, elem_size, fold_constant_params, storage_len, AttrValue, ElementType, GraphIr,
    InitializerIr, NodeIr,
};
pub use host_ops::HostTensor;
pub use interp::support::{is_implemented, is_implemented_node};
pub use names::NameMap;
pub use rewrite::fold::fold_constants;
pub use rewrite::layernorm::fuse_layernorm;
pub use rewrite::prune::{prune_dead_initializers, prune_dead_nodes};
pub use shape::{broadcast, element_count, Broadcast};
