# onnx-vulkan-core

The core of an engine that runs ONNX graphs on a GPU: graphs and tensors, operators on the host,
load-time rewrites, the plans of the kernels, and the run of a graph. The library under `src/` is
proved with [Verus](https://github.com/verus-lang/verus); `app/` is ordinary Rust around it.

## The library

| Module | What it does |
| --- | --- |
| `graph` | nodes, attributes, constants, element types |
| `host_ops` | operators on tensors that are on the host |
| `shape`, `num`, `floats`, `bytes`, `decimal` | broadcasting, sizes, single precision as bits, little-endian bytes, numbers in texts |
| `fusion`, `fusion_laws` | convex groups of nodes that a backend takes over |
| `rewrite` | fused normalizations, folded constants, dropped nodes; that order and sources are kept |
| `plan` | kernels, buffers and push constants as data |
| `interp` | the plan of every operator, what a node needs next, and the run |
| `execution`, `device`, `cache` | values of a run, buffers, and what is kept between runs |
| `executor`, `report` | loading a graph, and the report on what it lacks |
| `runner` | command line and made-up inputs of the model runner |

Nothing in the library touches a device. A run is asked for its next step (`interp::run::Run::step`)
and says what is to be done: read a value back, bring one to the device, carry out a plan. Whoever
owns the device does it and answers. Laws are public proof functions whose names begin with `law_`.

Floating-point arithmetic is not part of the proofs. Single-precision numbers are carried as their
bits, conversions between them and integers are exact integer arithmetic, and where an operator
adds or multiplies, the caller hands in the operation.

## The application

`app/main.rs` runs a model on the CPU and on the Vulkan execution provider of ONNX Runtime and
compares the outputs. `app/engine.rs` runs graphs of the library on any device that implements
`app/backend.rs`.
