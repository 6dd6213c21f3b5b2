//! Pooling, reductions and resampling.

use crate::error::{backend_error, Kind, Result};
use crate::floats::{
    f32_floor, f32_from_i64, f32_mul, f32_to_i64, floor_spec, from_i64_spec, mul_spec, to_i64_spec, ONE,
};
use crate::graph::NodeIr;
use crate::host_ops::FLOAT;
use crate::interp::elementwise::optional_bits;
use crate::interp::norm::{axis_of, front, inner, inner_of, lines, lines_of};
use crate::interp::window::{
    attrs_of, conv_geometry, geometry_of, repeat, repeated, section, window_attrs, AttrsView, ConvGeom,
    GeomView, WindowAttrs,
};
use crate::num::{ceil_div, groups, product_fits, size_word, volume, volume_of, w32, word};
use crate::plan::{
    one_output, output, output_of, planned, run, run_of, simple, Kernel, Plan, PlanView, Produced,
    ReduceKind, Slot,
};
use crate::shape::product;
use crate::text;
use vstd::prelude::*;

verus! {

// --- pooling ----------------------------------------------------------------------------

#[derive(Debug, Clone, Copy, PartialEq, Eq, Structural)]
pub enum PoolKind {
    Max,
    Average,
    GlobalAverage,
}

/// The attributes of a pooling; the global one has a window over the whole map.
pub open spec fn pool_attrs(node: NodeIr, kind: PoolKind, x: Seq<i64>) -> AttrsView {
    if kind == PoolKind::GlobalAverage {
        AttrsView {
            kernel: Some(x.skip(2)),
            strides: Some(repeated(1, x.len() - 2)),
            pads: Some(repeated(0, 2 * (x.len() - 2))),
            ..attrs_of(node)
        }
    } else {
        attrs_of(node)
    }
}

/// The geometry of a pooling: that of a convolution in which every channel is its own.
pub open spec fn pool_geometry_of(node: NodeIr, kind: PoolKind, x: Seq<i64>) -> Option<GeomView> {
    let attrs = pool_attrs(node, kind, x);
    if (x.len() != 3 && x.len() != 4) || node.int_attr("ceil_mode"@, 0) != 0 {
        None
    } else {
        match attrs.kernel {
            None => None,
            Some(k) => geometry_of(attrs, x, seq![x[1], 1i64] + k),
        }
    }
}

/// The plan of a pooling.
pub open spec fn pool_of(node: NodeIr, kind: PoolKind, x: Seq<i64>) -> Option<PlanView> {
    match pool_geometry_of(node, kind, x) {
        None => None,
        Some(g) => match output_of(FLOAT, g.out_shape, g.total) {
            None => None,
            Some(out) => Some(
                one_output(
                    out,
                    if g.total == 0 {
                        Seq::empty()
                    } else {
                        seq![
                            run_of(
                                if kind == PoolKind::Max {
                                    Kernel::MaxPool
                                } else {
                                    Kernel::AveragePool
                                },
                                seq![Slot::Input(0), Slot::Output(0)],
                                seq![
                                    w32(g.total),
                                    w32(g.c_out),
                                    w32(g.h_in),
                                    w32(g.w_in),
                                    w32(g.h_out),
                                    w32(g.w_out),
                                    w32(g.kh),
                                    w32(g.kw),
                                    w32(g.sh),
                                    w32(g.sw),
                                    w32(g.phb),
                                    w32(g.pwb),
                                    w32(g.dh),
                                    w32(g.dw),
                                    w32(node.int_attr("count_include_pad"@, 0) as int),
                                ],
                                ceil_div(w32(g.total) as int, 256),
                                1,
                                1,
                            ),
                        ]
                    },
                ),
            ),
        },
    }
}

/// Plans a pooling.
pub fn pool(node: &NodeIr, kind: PoolKind, x_shape: &[i64]) -> (r: Result<Plan>)
    ensures
        planned(r, pool_of(*node, kind, x_shape@)),
{
    let rank: usize = x_shape.len();
    if rank != 3 && rank != 4 {
        return Err(backend_error("only one or two spatial dimensions"));
    }
    if node.attr_i64("ceil_mode", 0) != 0 {
        return Err(backend_error("rounding up is not supported"));
    }
    let mut attrs: WindowAttrs = window_attrs(node);
    if kind == PoolKind::GlobalAverage {
        let whole = section(x_shape, 2, rank);
        assert(whole@ =~= x_shape@.skip(2));
        attrs.kernel = Some(whole);
        attrs.strides = Some(repeat(1, rank - 2));
        attrs.pads = Some(repeat(0, 2 * (rank - 2)));
    }
    let mut w_shape: Vec<i64> = vec![x_shape[1], 1];
    match &attrs.kernel {
        None => {
            return Err(backend_error("the size of the window is missing"));
        },
        Some(k) => {
            let mut copy = section(k.as_slice(), 0, k.len());
            assert(copy@ =~= k@);
            w_shape.append(&mut copy);
            assert(w_shape@ =~= seq![x_shape@[1], 1i64] + k@);
        },
    }
    let g: ConvGeom = match conv_geometry(attrs, x_shape, w_shape.as_slice()) {
        Ok(g) => g,
        Err(e) => {
            return Err(e);
        },
    };
    let ghost v = g@;
    let push: Vec<u32> = vec![
        size_word(g.total),
        word(g.c_out),
        word(g.h_in),
        word(g.w_in),
        word(g.h_out),
        word(g.w_out),
        word(g.kh),
        word(g.kw),
        word(g.sh),
        word(g.sw),
        word(g.phb),
        word(g.pwb),
        word(g.dh),
        word(g.dw),
        word(node.attr_i64("count_include_pad", 0)),
    ];
    assert(push@ =~= seq![
        w32(v.total),
        w32(v.c_out),
        w32(v.h_in),
        w32(v.w_in),
        w32(v.h_out),
        w32(v.w_out),
        w32(v.kh),
        w32(v.kw),
        w32(v.sh),
        w32(v.sw),
        w32(v.phb),
        w32(v.pwb),
        w32(v.dh),
        w32(v.dw),
        w32(node.int_attr("count_include_pad"@, 0) as int),
    ]);
    let total: usize = g.total;
    let out: Produced = match output(FLOAT, g.out_shape, total) {
        Ok(p) => p,
        Err(e) => {
            return Err(e);
        },
    };
    if total == 0 {
        return Ok(simple(out, None));
    }
    let kernel: Kernel = if kind == PoolKind::Max {
        Kernel::MaxPool
    } else {
        Kernel::AveragePool
    };
    let slots: Vec<Slot> = vec![Slot::Input(0), Slot::Output(0)];
    assert(slots@ =~= seq![Slot::Input(0), Slot::Output(0)]);
    Ok(simple(out, Some(run(kernel, slots, push, groups(size_word(total), 256), 1, 1))))
}

// --- grids in two dimensions ------------------------------------------------------------

/// Work groups along the first dimension for `n` invocations in groups of 256.
pub open spec fn spread(n: u32) -> int {
    let g = ceil_div(n as int, 256);
    if g < 1 {
        1
    } else if g > 32768 {
        32768
    } else {
        g
    }
}

fn spread_of(n: u32) -> (r: u32)
    ensures
        r == spread(n),
        1 <= r <= 32768,
{
    let g: u32 = groups(n, 256);
    if g < 1 {
        1
    } else if g > 32768 {
        32768
    } else {
        g
    }
}

// --- reductions -------------------------------------------------------------------------

/// The axis of a reduction: the only element of an attribute.
pub open spec fn reduced_axis(node: NodeIr, rank: int) -> Option<int> {
    match node.ints_attr("axes"@) {
        Some(axes) => if axes.len() == 1 {
            axis_of(axes[0], rank)
        } else {
            None
        },
        None => None,
    }
}

/// The axis of a reduction.
pub fn reduce_axis(node: &NodeIr, rank: usize) -> (r: Result<usize>)
    ensures
        match r {
            Ok(a) => reduced_axis(*node, rank as int) == Some(a as int),
            Err(e) => reduced_axis(*node, rank as int) is None && e.kind() == Kind::Backend,
        },
{
    match node.attr_ints("axes") {
        Some(axes) => if axes.len() == 1 {
            match front(axes[0], rank) {
                Some(a) => Ok(a),
                None => Err(backend_error("the axis is not one of the tensor's")),
            }
        } else {
            Err(backend_error("only one axis can be reduced"))
        },
        None => Err(backend_error("the axes are missing")),
    }
}

/// The shape after a reduction along `axis`.
pub open spec fn reduced_shape(shape: Seq<i64>, axis: int, keepdims: bool) -> Seq<i64> {
    if keepdims {
        shape.update(axis, 1)
    } else {
        shape.remove(axis)
    }
}

/// The plan of a reduction of floating-point numbers: one invocation for each line.
pub open spec fn reduce_of(node: NodeIr, kind: ReduceKind, shape: Seq<i64>, n: int) -> Option<
    PlanView,
> {
    match reduced_axis(node, shape.len() as int) {
        None => None,
        Some(axis) => {
            let rows = lines_of(n, shape[axis]);
            let keepdims = node.int_attr("keepdims"@, 1) != 0;
            match (
                inner_of(shape, axis),
                output_of(FLOAT, reduced_shape(shape, axis, keepdims), rows),
            ) {
                (Some(inner), Some(out)) => Some(
                    one_output(
                        out,
                        if rows == 0 {
                            Seq::empty()
                        } else {
                            let x = spread(w32(rows));
                            seq![
                                run_of(
                                    Kernel::Reduce(kind),
                                    seq![Slot::Input(0), Slot::Output(0)],
                                    seq![
                                        w32(shape[axis] as int),
                                        w32(inner),
                                        w32(rows),
                                        (x * 256) as u32,
                                    ],
                                    x,
                                    ceil_div(w32(rows) as int, x * 256),
                                    1,
                                ),
                            ]
                        },
                    ),
                ),
                _ => None,
            }
        },
    }
}

/// Plans a reduction of floating-point numbers along one axis.
pub fn reduce(node: &NodeIr, kind: ReduceKind, shape: Vec<i64>, elem_count: usize) -> (r: Result<
    Plan,
>)
    ensures
        planned(r, reduce_of(*node, kind, shape@, elem_count as int)),
{
    let axis: usize = match reduce_axis(node, shape.len()) {
        Ok(a) => a,
        Err(e) => {
            return Err(e);
        },
    };
    let c: i64 = shape[axis];
    let inner: usize = match inner(shape.as_slice(), axis) {
        Some(i) => i,
        None => {
            return Err(backend_error("the shape is too large"));
        },
    };
    let rows: usize = lines(elem_count, c);
    let mut out_shape = shape;
    if node.attr_i64("keepdims", 1) != 0 {
        out_shape.set(axis, 1);
    } else {
        out_shape.remove(axis);
    }
    let out: Produced = match output(FLOAT, out_shape, rows) {
        Ok(p) => p,
        Err(e) => {
            return Err(e);
        },
    };
    if rows == 0 {
        return Ok(simple(out, None));
    }
    let x: u32 = spread_of(size_word(rows));
    let stride: u32 = x * 256;
    let push: Vec<u32> = vec![word(c), size_word(inner), size_word(rows), stride];
    assert(push@ =~= seq![w32(c as int), w32(inner as int), w32(rows as int), (x * 256) as u32]);
    let slots: Vec<Slot> = vec![Slot::Input(0), Slot::Output(0)];
    assert(slots@ =~= seq![Slot::Input(0), Slot::Output(0)]);
    Ok(
        simple(
            out,
            Some(
                run(Kernel::Reduce(kind), slots, push, x, groups(size_word(rows), stride), 1),
            ),
        ),
    )
}

// --- GridSample -------------------------------------------------------------------------

/// Outside of the map everything is zero.
pub const PAD_ZEROS: u32 = 0;

/// Outside of the map the border goes on.
pub const PAD_BORDER: u32 = 1;

/// The plan of `GridSample` in two dimensions: `x` is `[n, c, h, w]`, and `grid` holds a point
/// for each output pixel.
pub open spec fn grid_sample_of(node: NodeIr, x: Seq<i64>, grid: Seq<i64>) -> Option<PlanView> {
    if x.len() != 4 || grid.len() != 4 || grid[3] != 2 || grid[0] != x[0] {
        None
    } else {
        let shape = seq![x[0], x[1], grid[1], grid[2]];
        match volume_of(shape) {
            None => None,
            Some(total) => match output_of(FLOAT, shape, total) {
                None => None,
                Some(out) => Some(
                    one_output(
                        out,
                        if total == 0 {
                            Seq::empty()
                        } else {
                            let gx = spread(w32(total));
                            seq![
                                run_of(
                                    Kernel::GridSample,
                                    seq![Slot::Input(0), Slot::Input(1), Slot::Output(0)],
                                    seq![
                                        w32(total),
                                        w32(x[1] as int),
                                        w32(x[2] as int),
                                        w32(x[3] as int),
                                        w32(grid[1] as int),
                                        w32(grid[2] as int),
                                        w32(node.int_attr("align_corners"@, 0) as int),
                                        if node.str_attr("padding_mode"@, "zeros"@) == "border"@ {
                                            PAD_BORDER
                                        } else {
                                            PAD_ZEROS
                                        },
                                        (gx * 256) as u32,
                                    ],
                                    gx,
                                    ceil_div(w32(total) as int, gx * 256),
                                    1,
                                ),
                            ]
                        },
                    ),
                ),
            },
        }
    }
}

/// Plans `GridSample`.
pub fn grid_sample(node: &NodeIr, x_shape: &[i64], grid_shape: &[i64]) -> (r: Result<Plan>)
    ensures
        planned(r, grid_sample_of(*node, x_shape@, grid_shape@)),
{
    if x_shape.len() != 4 || grid_shape.len() != 4 || grid_shape[3] != 2 || grid_shape[0]
        != x_shape[0] {
        return Err(backend_error("only maps in two dimensions"));
    }
    let shape: Vec<i64> = vec![x_shape[0], x_shape[1], grid_shape[1], grid_shape[2]];
    assert(shape@ =~= seq![x_shape@[0], x_shape@[1], grid_shape@[1], grid_shape@[2]]);
    let total: usize = match volume(shape.as_slice()) {
        Some(t) => t,
        None => {
            return Err(backend_error("the output is too large"));
        },
    };
    let out: Produced = match output(FLOAT, shape, total) {
        Ok(p) => p,
        Err(e) => {
            return Err(e);
        },
    };
    if total == 0 {
        return Ok(simple(out, None));
    }
    let gx: u32 = spread_of(size_word(total));
    let stride: u32 = gx * 256;
    let padding: u32 = if text::same(node.attr_str("padding_mode", "zeros"), "border") {
        PAD_BORDER
    } else {
        PAD_ZEROS
    };
    let push: Vec<u32> = vec![
        size_word(total),
        word(x_shape[1]),
        word(x_shape[2]),
        word(x_shape[3]),
        word(grid_shape[1]),
        word(grid_shape[2]),
        word(node.attr_i64("align_corners", 0)),
        padding,
        stride,
    ];
    assert(push@ =~= seq![
        w32(total as int),
        w32(x_shape@[1] as int),
        w32(x_shape@[2] as int),
        w32(x_shape@[3] as int),
        w32(grid_shape@[1] as int),
        w32(grid_shape@[2] as int),
        w32(node.int_attr("align_corners"@, 0) as int),
        padding,
        (gx * 256) as u32,
    ]);
    let slots: Vec<Slot> = vec![Slot::Input(0), Slot::Input(1), Slot::Output(0)];
    assert(slots@ =~= seq![Slot::Input(0), Slot::Input(1), Slot::Output(0)]);
    Ok(
        simple(
            out,
            Some(
                run(Kernel::GridSample, slots, push, gx, groups(size_word(total), stride), 1),
            ),
        ),
    )
}

// --- Resize -----------------------------------------------------------------------------
//
// The shader is told of modes by these numbers; whoever supplies it has to read them so.

pub const MODE_NEAREST: u32 = 0;

pub const MODE_LINEAR: u32 = 1;

pub const MODE_CUBIC: u32 = 2;

pub const COORD_HALF_PIXEL: u32 = 0;

pub const COORD_ASYMMETRIC: u32 = 1;

pub const COORD_ALIGN_CORNERS: u32 = 2;

pub const COORD_PYTORCH_HALF_PIXEL: u32 = 3;

pub const NEAREST_ROUND_PREFER_FLOOR: u32 = 0;

pub const NEAREST_ROUND_PREFER_CEIL: u32 = 1;

pub const NEAREST_FLOOR: u32 = 2;

pub const NEAREST_CEIL: u32 = 3;

/// The bits of -0.75.
pub const CUBIC_COEFFICIENT: u32 = 0xbf40_0000;

pub open spec fn resize_mode(node: NodeIr) -> Option<u32> {
    let m = node.str_attr("mode"@, "nearest"@);
    if m == "nearest"@ {
        Some(MODE_NEAREST)
    } else if m == "linear"@ {
        Some(MODE_LINEAR)
    } else if m == "cubic"@ {
        Some(MODE_CUBIC)
    } else {
        None
    }
}

fn resize_mode_of(node: &NodeIr) -> (r: Option<u32>)
    ensures
        r == resize_mode(*node),
{
    let m = node.attr_str("mode", "nearest");
    if text::same(m, "nearest") {
        Some(MODE_NEAREST)
    } else if text::same(m, "linear") {
        Some(MODE_LINEAR)
    } else if text::same(m, "cubic") {
        Some(MODE_CUBIC)
    } else {
        None
    }
}

pub open spec fn resize_coord(node: NodeIr) -> Option<u32> {
    let m = node.str_attr("coordinate_transformation_mode"@, "half_pixel"@);
    if m == "half_pixel"@ {
        Some(COORD_HALF_PIXEL)
    } else if m == "asymmetric"@ {
        Some(COORD_ASYMMETRIC)
    } else if m == "align_corners"@ {
        Some(COORD_ALIGN_CORNERS)
    } else if m == "pytorch_half_pixel"@ {
        Some(COORD_PYTORCH_HALF_PIXEL)
    } else {
        None
    }
}

fn resize_coord_of(node: &NodeIr) -> (r: Option<u32>)
    ensures
        r == resize_coord(*node),
{
    let m = node.attr_str("coordinate_transformation_mode", "half_pixel");
    if text::same(m, "half_pixel") {
        Some(COORD_HALF_PIXEL)
    } else if text::same(m, "asymmetric") {
        Some(COORD_ASYMMETRIC)
    } else if text::same(m, "align_corners") {
        Some(COORD_ALIGN_CORNERS)
    } else if text::same(m, "pytorch_half_pixel") {
        Some(COORD_PYTORCH_HALF_PIXEL)
    } else {
        None
    }
}

pub open spec fn resize_nearest(node: NodeIr) -> Option<u32> {
    let m = node.str_attr("nearest_mode"@, "round_prefer_floor"@);
    if m == "round_prefer_floor"@ {
        Some(NEAREST_ROUND_PREFER_FLOOR)
    } else if m == "round_prefer_ceil"@ {
        Some(NEAREST_ROUND_PREFER_CEIL)
    } else if m == "floor"@ {
        Some(NEAREST_FLOOR)
    } else if m == "ceil"@ {
        Some(NEAREST_CEIL)
    } else {
        None
    }
}

fn resize_nearest_of(node: &NodeIr) -> (r: Option<u32>)
    ensures
        r == resize_nearest(*node),
{
    let m = node.attr_str("nearest_mode", "round_prefer_floor");
    if text::same(m, "round_prefer_floor") {
        Some(NEAREST_ROUND_PREFER_FLOOR)
    } else if text::same(m, "round_prefer_ceil") {
        Some(NEAREST_ROUND_PREFER_CEIL)
    } else if text::same(m, "floor") {
        Some(NEAREST_FLOOR)
    } else if text::same(m, "ceil") {
        Some(NEAREST_CEIL)
    } else {
        None
    }
}

/// Whether the single-precision number lies within a millionth of one. Around one the bits
/// count the representable numbers, of which eight above and sixteen below are that close.
pub open spec fn near_one(bits: u32) -> bool {
    ONE - 16 <= bits <= ONE + 8
}

/// The size to which a dimension grows under a factor, rounded down.
pub open spec fn scaled(dim: i64, scale: u32) -> int {
    to_i64_spec(floor_spec(mul_spec(from_i64_spec(dim as int), scale)))
}

/// Input and output sizes of a resampling.
#[derive(Debug, Clone, Copy, PartialEq, Eq, Structural)]
pub struct ResizeSizes {
    pub h_in: i64,
    pub w_in: i64,
    pub h_out: i64,
    pub w_out: i64,
    /// The factors, as bits, where they are given; otherwise they are the ratios of the sizes.
    pub scales: Option<Scales>,
}

/// Factors along height and width, as bits.
#[derive(Debug, Clone, Copy, PartialEq, Eq, Structural)]
pub struct Scales {
    pub h: u32,
    pub w: u32,
}

/// The sizes of a resampling of `[n, c, w]` or `[n, c, h, w]`: from the factors where there are
/// some, else from the sizes. Batch and channels stay.
pub open spec fn resize_sizes_of(
    x: Seq<i64>,
    scales: Option<Seq<u32>>,
    sizes: Option<Seq<u32>>,
) -> Option<ResizeSizes> {
    let rank = x.len();
    let flat = rank == 3;
    let h_in = if flat {
        1i64
    } else {
        x[2]
    };
    let w_in = x[rank - 1];
    if rank != 3 && rank != 4 {
        None
    } else if scales is Some && scales->Some_0.len() > 0 {
        let s = scales->Some_0;
        if s.len() != rank || !near_one(s[0]) || !near_one(s[1]) {
            None
        } else {
            let factors = Scales {
                h: if flat {
                    ONE
                } else {
                    s[2]
                },
                w: s[rank - 1],
            };
            let (h, w) = (scaled(h_in, factors.h), scaled(w_in, factors.w));
            if h > 0 && w > 0 {
                Some(
                    ResizeSizes {
                        h_in,
                        w_in,
                        h_out: h as i64,
                        w_out: w as i64,
                        scales: Some(factors),
                    },
                )
            } else {
                None
            }
        }
    } else if sizes is Some && sizes->Some_0.len() > 0 {
        let s = sizes->Some_0;
        if s.len() != rank || to_i64_spec(s[0]) != x[0] || to_i64_spec(s[1]) != x[1] {
            None
        } else {
            let h = if flat {
                1
            } else {
                to_i64_spec(s[2])
            };
            let w = to_i64_spec(s[rank - 1]);
            if h > 0 && w > 0 {
                Some(ResizeSizes { h_in, w_in, h_out: h as i64, w_out: w as i64, scales: None })
            } else {
                None
            }
        }
    } else {
        None
    }
}

/// The sizes of a resampling; `scales` and `sizes` hold the elements of the optional inputs, as
/// bits of single-precision numbers.
pub fn resize_sizes(x_shape: &[i64], scales: Option<&[u32]>, sizes: Option<&[u32]>) -> (r: Result<
    ResizeSizes,
>)
    ensures
        match r {
            Ok(z) => resize_sizes_of(x_shape@, optional_bits(scales), optional_bits(sizes)) == Some(
                z,
            ),
            Err(e) => resize_sizes_of(x_shape@, optional_bits(scales), optional_bits(sizes)) is None
                && e.kind() == Kind::Backend,
        },
{
    let rank: usize = x_shape.len();
    if rank != 3 && rank != 4 {
        return Err(backend_error("only one or two spatial dimensions"));
    }
    let flat: bool = rank == 3;
    let h_in: i64 = if flat {
        1
    } else {
        x_shape[2]
    };
    let w_in: i64 = x_shape[rank - 1];
    match scales {
        Some(s) => {
            if s.len() > 0 {
                if s.len() != rank {
                    return Err(backend_error("the factors do not suit the dimensions"));
                }
                let (a, b): (u32, u32) = (s[0], s[1]);
                if a < ONE - 16 || a > ONE + 8 || b < ONE - 16 || b > ONE + 8 {
                    return Err(backend_error("batch or channels would change"));
                }
                let factors = Scales {
                    h: if flat {
                        ONE
                    } else {
                        s[2]
                    },
                    w: s[rank - 1],
                };
                let h: i64 = f32_to_i64(f32_floor(f32_mul(f32_from_i64(h_in), factors.h)));
                let w: i64 = f32_to_i64(f32_floor(f32_mul(f32_from_i64(w_in), factors.w)));
                if h <= 0 || w <= 0 {
                    return Err(backend_error("the output is empty"));
                }
                return Ok(
                    ResizeSizes { h_in, w_in, h_out: h, w_out: w, scales: Some(factors) },
                );
            }
        },
        None => {},
    }
    match sizes {
        Some(s) => {
            if s.len() > 0 {
                if s.len() != rank || f32_to_i64(s[0]) != x_shape[0] || f32_to_i64(s[1])
                    != x_shape[1] {
                    return Err(backend_error("batch or channels would change"));
                }
                let h: i64 = if flat {
                    1
                } else {
                    f32_to_i64(s[2])
                };
                let w: i64 = f32_to_i64(s[rank - 1]);
                if h <= 0 || w <= 0 {
                    return Err(backend_error("the output is empty"));
                }
                return Ok(ResizeSizes { h_in, w_in, h_out: h, w_out: w, scales: None });
            }
        },
        None => {},
    }
    Err(backend_error("neither factors nor sizes"))
}

/// The plan of a resampling; `ratio` holds the ratios of the sizes, for where no factors are
/// given.
pub open spec fn resize_of(node: NodeIr, x: Seq<i64>, z: ResizeSizes, ratio: Scales) -> Option<
    PlanView,
> {
    let full = seq![x[0], x[1], z.h_out, z.w_out];
    let shape = if x.len() == 4 {
        full
    } else {
        seq![x[0], x[1], z.w_out]
    };
    let scale = match z.scales {
        Some(s) => s,
        None => ratio,
    };
    match (resize_mode(node), resize_coord(node), resize_nearest(node), volume_of(full)) {
        (Some(mode), Some(coord), Some(nearest), Some(n)) => if node.int_attr("exclude_outside"@, 0)
            != 0 {
            None
        } else {
            match output_of(FLOAT, shape, n) {
                None => None,
                Some(out) => Some(
                    one_output(
                        out,
                        if n == 0 {
                            Seq::empty()
                        } else {
                            seq![
                                run_of(
                                    Kernel::Resize,
                                    seq![Slot::Input(0), Slot::Output(0)],
                                    seq![
                                        w32(n),
                                        w32(x[0] * x[1]),
                                        w32(z.h_in as int),
                                        w32(z.w_in as int),
                                        w32(z.h_out as int),
                                        w32(z.w_out as int),
                                        coord,
                                        mode,
                                        nearest,
                                        node.float_attr("cubic_coeff_a"@, CUBIC_COEFFICIENT),
                                        scale.h,
                                        scale.w,
                                    ],
                                    ceil_div(w32(n) as int, 256),
                                    1,
                                    1,
                                ),
                            ]
                        },
                    ),
                ),
            }
        },
        _ => None,
    }
}

/// Plans a resampling.
pub fn resize(node: &NodeIr, x_shape: &[i64], z: ResizeSizes, ratio: Scales) -> (r: Result<Plan>)
    requires
        x_shape@.len() == 3 || x_shape@.len() == 4,
    ensures
        planned(r, resize_of(*node, x_shape@, z, ratio)),
{
    let (mode, coord, nearest): (u32, u32, u32) = match (
        resize_mode_of(node),
        resize_coord_of(node),
        resize_nearest_of(node),
    ) {
        (Some(a), Some(b), Some(c)) => (a, b, c),
        _ => {
            return Err(backend_error("this kind of resampling is not supported"));
        },
    };
    if node.attr_i64("exclude_outside", 0) != 0 {
        return Err(backend_error("leaving out what is outside is not supported"));
    }
    let (n0, c0): (i64, i64) = (x_shape[0], x_shape[1]);
    let full: Vec<i64> = vec![n0, c0, z.h_out, z.w_out];
    assert(full@ =~= seq![n0, c0, z.h_out, z.w_out]);
    let n: usize = match volume(full.as_slice()) {
        Some(n) => n,
        None => {
            return Err(backend_error("the output is too large"));
        },
    };
    proof {
        let f = full@;
        assert(product_fits(f));
        assert(product_fits(f.drop_last()));
        assert(product_fits(f.drop_last().drop_last()));
        let p = f.drop_last().drop_last();
        assert(p =~= seq![n0, c0]);
        assert(p.drop_last() =~= seq![n0]);
        assert(p.drop_last().drop_last() =~= Seq::<i64>::empty());
        assert(product(p.drop_last().drop_last()) == 1);
        assert(product(p.drop_last()) == n0);
        assert(product(p) == n0 * c0);
    }
    let images: i64 = n0 * c0;
    let shape: Vec<i64> = if x_shape.len() == 4 {
        full
    } else {
        let flat: Vec<i64> = vec![n0, c0, z.w_out];
        assert(flat@ =~= seq![n0, c0, z.w_out]);
        flat
    };
    let out: Produced = match output(FLOAT, shape, n) {
        Ok(p) => p,
        Err(e) => {
            return Err(e);
        },
    };
    if n == 0 {
        return Ok(simple(out, None));
    }
    let scale: Scales = match z.scales {
        Some(s) => s,
        None => ratio,
    };
    let push: Vec<u32> = vec![
        size_word(n),
        word(images),
        word(z.h_in),
        word(z.w_in),
        word(z.h_out),
        word(z.w_out),
        coord,
        mode,
        nearest,
        node.attr_f32("cubic_coeff_a", CUBIC_COEFFICIENT),
        scale.h,
        scale.w,
    ];
    assert(push@ =~= seq![
        w32(n as int),
        w32(n0 * c0),
        w32(z.h_in as int),
        w32(z.w_in as int),
        w32(z.h_out as int),
        w32(z.w_out as int),
        coord,
        mode,
        nearest,
        node.float_attr("cubic_coeff_a"@, CUBIC_COEFFICIENT),
        scale.h,
        scale.w,
    ]);
    let slots: Vec<Slot> = vec![Slot::Input(0), Slot::Output(0)];
    assert(slots@ =~= seq![Slot::Input(0), Slot::Output(0)]);
    Ok(simple(out, Some(run(Kernel::Resize, slots, push, groups(size_word(n), 256), 1, 1))))
}

} // verus!
