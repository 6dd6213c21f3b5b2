//! Permuting the dimensions of a tensor.

use crate::bytes::{
    element, lemma_picked_element, lemma_picked_len, lemma_picked_same, picked, push_element,
};
use crate::error::{backend_error, Kind, Result};
use crate::graph::{elem_size, size_of_code, NodeIr, TensorView};
use crate::execution::device_bytes;
use crate::host_ops::fill::{clipped_suffix, row_major_strides, strides_fit, strides_held};
use crate::host_ops::{copy_dims, elements, fault, lemma_sound_len, HostTensor};
use crate::num::{ceil_div, groups, size_word, volume, volume_of, w32, word};
use crate::plan::{
    assembled, buffer_bytes, one_output, output, output_of, planned, run, run_of, simple, Command,
    CommandView, Kernel, PackedKey, PackedKeyView, Plan, PlanView, Produced, ProducedView, Scratch,
    ScratchView, Slot, Storage,
};
use crate::shaders::{extend_padded, padded, MAX_RANK};
use crate::text;
use crate::shape::{
    coord, count_of, element_count, lemma_coord_bound, lemma_count, lemma_nonempty,
    lemma_suffix_positive, lemma_whole, positive, strides_of, suffix, weighted,
};
use vstd::prelude::*;

verus! {

// --- matrices ---------------------------------------------------------------------------

/// Rows and columns of the tiles in which a matrix is transposed.
pub const TILE_ROWS: usize = 256;

pub const TILE_COLS: usize = 64;

/// Where the element at place `o` of the transposed matrix stands in a matrix of `r` rows and
/// `c` columns.
pub open spec fn flip_source(r: int, c: int, o: int) -> int {
    (o % r) * c + o / r
}

/// The bytes of the transposed matrix.
pub open spec fn flipped(data: Seq<u8>, es: int, r: int, c: int) -> Seq<u8> {
    picked(data, es, r * c, |o: int| flip_source(r, c, o))
}

/// Whether the element in row `j` and column `i` of `out` is the one in row `i` and column `j`
/// of `data`.
pub open spec fn crossed(
    out: Seq<u8>,
    data: Seq<u8>,
    es: int,
    r: int,
    c: int,
    i: int,
    j: int,
) -> bool {
    element(out, es, j * r + i) == element(data, es, i * c + j)
}

/// Whether the element in row `j` and column `i` is the same in both.
pub open spec fn untouched(a: Seq<u8>, b: Seq<u8>, es: int, r: int, i: int, j: int) -> bool {
    element(a, es, j * r + i) == element(b, es, j * r + i)
}

/// Row `j` and column `i` of a matrix with `r` columns.
proof fn lemma_cell(r: int, c: int, i: int, j: int)
    requires
        0 <= i < r,
        0 <= j < c,
    ensures
        0 <= j * r + i < r * c,
        (j * r + i) / r == j,
        (j * r + i) % r == i,
{
    assert(0 <= j * r && j * r + r <= r * c) by (nonlinear_arith)
        requires
            0 <= j < c,
            r > 0,
    ;
    vstd::arithmetic::div_mod::lemma_fundamental_div_mod_converse(j * r + i, r, j, i);
}

proof fn lemma_place(r: int, c: int, o: int)
    requires
        0 <= o < r * c,
        r > 0,
        c > 0,
    ensures
        0 <= o % r < r,
        0 <= o / r < c,
        o == (o / r) * r + o % r,
        0 <= flip_source(r, c, o) < r * c,
{
    vstd::arithmetic::div_mod::lemma_fundamental_div_mod(o, r);
    let (i, j) = (o % r, o / r);
    assert(j < c && j >= 0) by (nonlinear_arith)
        requires
            o == r * j + i,
            0 <= o < r * c,
            0 <= i < r,
    ;
    assert(r * j == j * r) by (nonlinear_arith);
    assert(0 <= i * c && i * c + c <= r * c) by (nonlinear_arith)
        requires
            0 <= i < r,
            c > 0,
    ;
}

/// Bytes that agree element by element are the same.
pub proof fn lemma_same_elements(a: Seq<u8>, b: Seq<u8>, es: int, n: int)
    requires
        es > 0,
        n >= 0,
        a.len() == n * es,
        b.len() == n * es,
        forall|o: int| 0 <= o < n ==> #[trigger] element(a, es, o) == element(b, es, o),
    ensures
        a == b,
{
    assert forall|k: int| 0 <= k < a.len() implies a[k] == b[k] by {
        let (o, p) = (k / es, k % es);
        vstd::arithmetic::div_mod::lemma_fundamental_div_mod(k, es);
        assert(0 <= o < n) by (nonlinear_arith)
            requires
                k == es * o + p,
                0 <= k < n * es,
                0 <= p < es,
                es > 0,
        ;
        assert(es * o == o * es) by (nonlinear_arith);
        assert(0 <= o * es && o * es + es <= n * es) by (nonlinear_arith)
            requires
                0 <= o < n,
                es > 0,
        ;
        assert(element(a, es, o)[p] == a[k]);
        assert(element(b, es, o)[p] == b[k]);
    }
    assert(a =~= b);
}

/// Replaces `len` bytes of `data` from `dst` on by those of `run` from `at` on.
fn copy_run(data: &mut Vec<u8>, dst: usize, run: &Vec<u8>, at: usize, len: usize)
    requires
        dst + len <= old(data)@.len(),
        at + len <= run@.len(),
    ensures
        final(data)@.len() == old(data)@.len(),
        forall|k: int|
            0 <= k < old(data)@.len() ==> #[trigger] final(data)@[k] == (if dst <= k < dst + len {
                run@[at + (k - dst)]
            } else {
                old(data)@[k]
            }),
{
    let ghost was = data@;
    let size: usize = data.len();
    let end: usize = run.len();
    let mut k: usize = 0;
    while k < len
        invariant
            k <= len,
            size == was.len(),
            end == run@.len(),
            dst + len <= size,
            at + len <= end,
            data@.len() == size,
            forall|q: int|
                0 <= q < size ==> #[trigger] data@[q] == (if dst <= q < dst + k {
                    run@[at + (q - dst)]
                } else {
                    was[q]
                }),
        decreases len - k,
    {
        data.set(dst + k, run[at + k]);
        k += 1;
    }
}

/// The tile at row `i0` and column `j0`, transposed.
fn turned_tile(
    data: &[u8],
    c: usize,
    i0: usize,
    j0: usize,
    tr: usize,
    tc: usize,
    es: usize,
    Ghost(r): Ghost<int>,
) -> (tile: Vec<u8>)
    requires
        0 < tr,
        0 < tc,
        i0 + tr <= r,
        j0 + tc <= c,
        r * c * es <= data@.len(),
        es > 0,
    ensures
        tile@.len() == tr * tc * es,
        forall|ip: int, jp: int|
            0 <= ip < tr && 0 <= jp < tc ==> #[trigger] element(
                tile@,
                es as int,
                jp * tr + ip,
            ) == element(data@, es as int, (i0 + ip) * c + (j0 + jp)),
{
    let size: usize = data.len();
    let mut tile: Vec<u8> = Vec::new();
    let ghost f = |q: int| (i0 + q % (tr as int)) * c + (j0 + q / (tr as int));
    let ghost d = data@;
    proof {
        assert forall|q: int| 0 <= q < tr * tc implies 0 <= #[trigger] f(q) && f(q) * es + es
            <= d.len() by {
            lemma_place(tr as int, tc as int, q);
            lemma_inside(r, c as int, i0 + q % (tr as int), j0 + q / (tr as int), es as int);
        }
        assert(0 * (tr as int) == 0);
    }
    let mut jp: usize = 0;
    while jp < tc
        invariant
            jp <= tc,
            0 < tr,
            es > 0,
            i0 + tr <= r,
            j0 + tc <= c,
            size == d.len(),
            d == data@,
            r * c * es <= size,
            f == (|q: int| (i0 + q % (tr as int)) * c + (j0 + q / (tr as int))),
            tile@ == picked(d, es as int, jp * tr, f),
        decreases tc - jp,
    {
        let mut ip: usize = 0;
        assert(jp * tr + 0 == jp * tr);
        while ip < tr
            invariant
                ip <= tr,
                jp < tc,
                0 < tr,
                es > 0,
                i0 + tr <= r,
                j0 + tc <= c,
                size == d.len(),
                d == data@,
                r * c * es <= size,
                f == (|q: int| (i0 + q % (tr as int)) * c + (j0 + q / (tr as int))),
                tile@ == picked(d, es as int, jp * tr + ip, f),
            decreases tr - ip,
        {
            proof {
                lemma_inside(r, c as int, i0 + ip, j0 + jp, es as int);
                vstd::arithmetic::div_mod::lemma_fundamental_div_mod_converse(
                    jp * tr + ip,
                    tr as int,
                    jp as int,
                    ip as int,
                );
                assert(f(jp * tr + ip) == (i0 + ip) * c + (j0 + jp));
            }
            push_element(&mut tile, data, (i0 + ip) * c + (j0 + jp), es);
            ip += 1;
        }
        assert((jp + 1) * tr == jp * tr + tr) by (nonlinear_arith);
        jp += 1;
    }
    proof {
        assert(tc * tr == tr * tc) by (nonlinear_arith);
        assert(tr * tc >= 0) by (nonlinear_arith)
            requires
                tr > 0,
                tc > 0,
        ;
        lemma_picked_len(d, es as int, tr * tc, f);
        assert forall|ip: int, jp: int| 0 <= ip < tr && 0 <= jp < tc implies #[trigger] element(
            tile@,
            es as int,
            jp * tr + ip,
        ) == element(d, es as int, (i0 + ip) * c + (j0 + jp)) by {
            lemma_cell(tr as int, tc as int, ip, jp);
            lemma_picked_element(d, es as int, tr * tc, f, jp * tr + ip);
        }
    }
    tile
}

/// An element of a matrix lies within its bytes.
proof fn lemma_inside(r: int, c: int, i: int, j: int, es: int)
    requires
        0 <= i < r,
        0 <= j < c,
        es > 0,
    ensures
        0 <= i * c,
        0 <= i * c + j,
        i <= i * c,
        i * c + j <= (i * c + j) * es,
        (i * c + j) * es + es <= r * c * es,
{
    assert(i <= i * c) by (nonlinear_arith)
        requires
            0 <= i,
            c >= 1,
    ;
    assert(0 <= i * c && i * c + c <= r * c) by (nonlinear_arith)
        requires
            0 <= i < r,
            c > 0,
    ;
    let (o, n) = (i * c + j, r * c);
    assert(o <= o * es && o * es + es <= n * es) by (nonlinear_arith)
        requires
            0 <= o < n,
            es > 0,
    ;
}

/// Writing part of one row leaves every element outside of that part.
proof fn lemma_other_cell(r: int, i0: int, tr: int, row: int, i: int, j: int, es: int)
    requires
        0 <= i0,
        0 <= tr,
        i0 + tr <= r,
        0 <= i < r,
        0 <= j,
        0 <= row,
        es > 0,
        j != row || i < i0 || i >= i0 + tr,
    ensures
        (j * r + i) * es + es <= (row * r + i0) * es || (row * r + i0) * es + tr * es <= (j * r + i)
            * es,
{
    let (o, lo) = (j * r + i, row * r + i0);
    if j < row {
        assert(j * r + r <= row * r) by (nonlinear_arith)
            requires
                j + 1 <= row,
                r > 0,
        ;
        assert(o + 1 <= lo);
    } else if j > row {
        assert(row * r + r <= j * r) by (nonlinear_arith)
            requires
                row + 1 <= j,
                r > 0,
        ;
        assert(lo + tr <= o);
    }
    if o + 1 <= lo {
        assert(o * es + es <= lo * es) by (nonlinear_arith)
            requires
                o + 1 <= lo,
                es > 0,
        ;
    } else {
        assert(lo * es + tr * es <= o * es) by (nonlinear_arith)
            requires
                lo + tr <= o,
                es > 0,
        ;
    }
}

/// Writes a transposed tile to its place.
fn store_tile(
    out: &mut Vec<u8>,
    tile: &Vec<u8>,
    r: usize,
    i0: usize,
    j0: usize,
    tr: usize,
    tc: usize,
    es: usize,
    Ghost(c): Ghost<int>,
    Ghost(d): Ghost<Seq<u8>>,
)
    requires
        0 < tr,
        0 < tc,
        i0 + tr <= r,
        j0 + tc <= c,
        es > 0,
        old(out)@.len() == r * c * es,
        tile@.len() == tr * tc * es,
        forall|ip: int, jp: int|
            0 <= ip < tr && 0 <= jp < tc ==> #[trigger] element(
                tile@,
                es as int,
                jp * tr + ip,
            ) == element(d, es as int, (i0 + ip) * c + (j0 + jp)),
    ensures
        final(out)@.len() == old(out)@.len(),
        forall|i: int, j: int|
            0 <= i < r && 0 <= j < c && (i < i0 || i >= i0 + tr || j < j0 || j >= j0 + tc)
                && crossed(old(out)@, d, es as int, r as int, c, i, j) ==> #[trigger] crossed(
                final(out)@,
                d,
                es as int,
                r as int,
                c,
                i,
                j,
            ),
        forall|i: int, j: int|
            i0 <= i < i0 + tr && j0 <= j < j0 + tc ==> #[trigger] crossed(
                final(out)@,
                d,
                es as int,
                r as int,
                c,
                i,
                j,
            ),
{
    let ghost was = out@;
    let ghost e = es as int;
    let ghost (ri, ti) = (r as int, tr as int);
    let size: usize = out.len();
    let held: usize = tile.len();
    let mut jp: usize = 0;
    while jp < tc
        invariant
            jp <= tc,
            0 < tr,
            i0 + tr <= r,
            j0 + tc <= c,
            es > 0,
            e == es,
            ri == r,
            ti == tr,
            size == r * c * es,
            out@.len() == size,
            was.len() == size,
            held == tr * tc * es,
            tile@.len() == held,
            forall|ip: int, jp: int|
                0 <= ip < tr && 0 <= jp < tc ==> #[trigger] element(tile@, e, jp * tr + ip)
                    == element(d, e, (i0 + ip) * c + (j0 + jp)),
            forall|i: int, j: int|
                0 <= i < r && 0 <= j < c && (i < i0 || i >= i0 + tr || j < j0 || j >= j0 + jp)
                    && crossed(was, d, e, ri, c, i, j) ==> #[trigger] crossed(
                    out@,
                    d,
                    e,
                    ri,
                    c,
                    i,
                    j,
                ),
            forall|i: int, j: int|
                i0 <= i < i0 + tr && j0 <= j < j0 + jp ==> #[trigger] crossed(
                    out@,
                    d,
                    e,
                    ri,
                    c,
                    i,
                    j,
                ),
        decreases tc - jp,
    {
        let ghost before = out@;
        let ghost row = j0 + jp;
        proof {
            lemma_cell(ri, c, i0 as int, row);
            lemma_cell(ri, c, i0 + tr - 1, row);
            let (lo, n) = (row * ri + i0, ri * c);
            assert(0 <= lo * e && lo * e + ti * e <= n * e) by (nonlinear_arith)
                requires
                    0 <= lo,
                    lo + ti <= n,
                    e > 0,
                    ti > 0,
            ;
            let (t, m) = (jp * ti, ti * tc);
            assert(0 <= t && t + ti <= m) by (nonlinear_arith)
                requires
                    t == jp * ti,
                    m == ti * tc,
                    0 <= jp < tc,
                    ti > 0,
            ;
            assert(0 <= t * e && t * e + ti * e <= m * e) by (nonlinear_arith)
                requires
                    0 <= t,
                    t + ti <= m,
                    e > 0,
                    ti > 0,
            ;
            assert(0 <= ti * e) by (nonlinear_arith)
                requires
                    ti > 0,
                    e > 0,
            ;
            assert(row * ri >= 0) by (nonlinear_arith)
                requires
                    row >= 0,
                    ri >= 0,
            ;
            assert(lo <= lo * e) by (nonlinear_arith)
                requires
                    0 <= lo,
                    e >= 1,
            ;
            assert(t <= t * e) by (nonlinear_arith)
                requires
                    0 <= t,
                    e >= 1,
            ;
        }
        copy_run(out, ((j0 + jp) * r + i0) * es, tile, (jp * tr) * es, tr * es);
        proof {
            assert forall|i: int, j: int|
                0 <= i < r && 0 <= j < c && (i < i0 || i >= i0 + tr || j != row) implies #[trigger] untouched(
                out@,
                before,
                e,
                ri,
                i,
                j,
            ) by {
                lemma_other_cell(ri, i0 as int, ti, row, i, j, e);
                lemma_cell(ri, c, i, j);
                let o = j * ri + i;
                assert(0 <= o * e && o * e + e <= ri * c * e) by {
                    let n = ri * c;
                    assert(0 <= o * e && o * e + e <= n * e) by (nonlinear_arith)
                        requires
                            0 <= o < n,
                            e > 0,
                    ;
                }
                assert(element(out@, e, o) =~= element(before, e, o));
            }
            assert forall|i: int, j: int|
                0 <= i < r && 0 <= j < c && (i < i0 || i >= i0 + tr || j < j0 || j >= j0 + jp + 1)
                    && crossed(was, d, e, ri, c, i, j) implies #[trigger] crossed(
                out@,
                d,
                e,
                ri,
                c,
                i,
                j,
            ) by {
                assert(crossed(before, d, e, ri, c, i, j));
                assert(untouched(out@, before, e, ri, i, j));
            }
            assert forall|i: int, j: int|
                i0 <= i < i0 + tr && j0 <= j < j0 + jp + 1 implies #[trigger] crossed(
                out@,
                d,
                e,
                ri,
                c,
                i,
                j,
            ) by {
                if j < row {
                    assert(crossed(before, d, e, ri, c, i, j));
                    assert(untouched(out@, before, e, ri, i, j));
                } else {
                    let ip = i - i0;
                    let (lo, t) = (row * ri + i0, jp * ti);
                    assert((lo + ip) * e == lo * e + ip * e) by (nonlinear_arith);
                    assert((t + ip) * e == t * e + ip * e) by (nonlinear_arith);
                    assert(0 <= ip * e && ip * e + e <= ti * e) by (nonlinear_arith)
                        requires
                            0 <= ip < ti,
                            e > 0,
                    ;
                    assert(element(out@, e, lo + ip) =~= element(tile@, e, t + ip));
                    assert(element(tile@, e, jp * tr + ip) == element(
                        d,
                        e,
                        (i0 + ip) * c + (j0 + jp),
                    ));
                }
            }
        }
        jp += 1;
    }
}

/// Transposes a matrix tile by tile.
pub fn host_transpose_2d(h: &HostTensor, out_shape: &[i64], es: usize) -> (r: Result<HostTensor>)
    requires
        h.shape@.len() == 2,
        h.shape@[0] >= 0,
        h.shape@[1] >= 0,
        es > 0,
        h.data@.len() == h.shape@[0] * h.shape@[1] * es,
        h.data@.len() <= usize::MAX,
    ensures
        r matches Ok(t) && t@ == (TensorView {
            dtype: h.dtype,
            shape: out_shape@,
            data: flipped(h.data@, es as int, h.shape@[0] as int, h.shape@[1] as int),
        }),
{
    let ghost (ri, ci, e, d) = (h.shape@[0] as int, h.shape@[1] as int, es as int, h.data@);
    let shape = copy_dims(out_shape);
    if h.shape[0] == 0 || h.shape[1] == 0 {
        assert(ri * ci == 0) by (nonlinear_arith)
            requires
                ri == 0 || ci == 0,
        ;
        let empty: Vec<u8> = Vec::new();
        assert(empty@ =~= flipped(d, e, ri, ci));
        return Ok(HostTensor { dtype: h.dtype, shape, data: empty });
    }
    let size: usize = h.data.len();
    proof {
        let n = ri * ci;
        assert(ri <= n && ci <= n) by (nonlinear_arith)
            requires
                n == ri * ci,
                ri >= 1,
                ci >= 1,
        ;
        assert(n <= n * e) by (nonlinear_arith)
            requires
                n >= 0,
                e >= 1,
        ;
    }
    let r: usize = h.shape[0] as usize;
    let c: usize = h.shape[1] as usize;
    let mut data: Vec<u8> = vec![0u8; size];
    let mut i0: usize = 0;
    while i0 < r
        invariant
            i0 <= r,
            r == ri,
            c == ci,
            es == e,
            d == h.data@,
            es > 0,
            c > 0,
            size == d.len(),
            size == r * c * es,
            data@.len() == size,
            forall|i: int, j: int|
                0 <= i < i0 && 0 <= j < c ==> #[trigger] crossed(data@, d, e, ri, ci, i, j),
        decreases r - i0,
    {
        let tr: usize = if r - i0 < TILE_ROWS {
            r - i0
        } else {
            TILE_ROWS
        };
        let mut j0: usize = 0;
        while j0 < c
            invariant
                j0 <= c,
                i0 + tr <= r,
                0 < tr,
                r == ri,
                c == ci,
                es == e,
                d == h.data@,
                es > 0,
                size == d.len(),
                size == r * c * es,
                data@.len() == size,
                forall|i: int, j: int|
                    0 <= i < i0 && 0 <= j < c ==> #[trigger] crossed(data@, d, e, ri, ci, i, j),
                forall|i: int, j: int|
                    i0 <= i < i0 + tr && 0 <= j < j0 ==> #[trigger] crossed(
                        data@,
                        d,
                        e,
                        ri,
                        ci,
                        i,
                        j,
                    ),
            decreases c - j0,
        {
            let tc: usize = if c - j0 < TILE_COLS {
                c - j0
            } else {
                TILE_COLS
            };
            let tile = turned_tile(h.data.as_slice(), c, i0, j0, tr, tc, es, Ghost(ri));
            store_tile(&mut data, &tile, r, i0, j0, tr, tc, es, Ghost(ci), Ghost(d));
            j0 += tc;
        }
        i0 += tr;
    }
    proof {
        let f = |o: int| flip_source(ri, ci, o);
        let n = ri * ci;
        assert(n >= 0) by (nonlinear_arith)
            requires
                n == ri * ci,
                ri >= 0,
                ci >= 0,
        ;
        assert forall|o: int| 0 <= o < n implies 0 <= #[trigger] f(o) && f(o) * e + e <= d.len() by {
            lemma_place(ri, ci, o);
            let s = f(o);
            assert(s * e + e <= n * e) by (nonlinear_arith)
                requires
                    0 <= s < n,
                    e > 0,
            ;
        }
        lemma_picked_len(d, e, n, f);
        assert forall|o: int| 0 <= o < n implies #[trigger] element(data@, e, o) == element(
            flipped(d, e, ri, ci),
            e,
            o,
        ) by {
            lemma_place(ri, ci, o);
            lemma_picked_element(d, e, n, f, o);
            assert(crossed(data@, d, e, ri, ci, o % ri, o / ri));
        }
        lemma_same_elements(data@, flipped(d, e, ri, ci), e, n);
    }
    Ok(HostTensor { dtype: h.dtype, shape, data })
}

/// A matrix transposed twice is as before.
pub proof fn law_flip_twice(data: Seq<u8>, es: int, r: int, c: int)
    requires
        r >= 0,
        c >= 0,
        es > 0,
        data.len() == r * c * es,
    ensures
        flipped(flipped(data, es, r, c), es, c, r) == data,
{
    let n = r * c;
    assert(c * r == r * c) by (nonlinear_arith);
    let f = |o: int| flip_source(r, c, o);
    let g = |o: int| flip_source(c, r, o);
    assert(n >= 0) by (nonlinear_arith)
        requires
            n == r * c,
            r >= 0,
            c >= 0,
    ;
    let once = flipped(data, es, r, c);
    assert forall|o: int| 0 <= o < n implies 0 <= #[trigger] f(o) && f(o) * es + es <= n * es by {
        lemma_positive(r, c, o);
        lemma_place(r, c, o);
        let s = f(o);
        assert(s * es + es <= n * es) by (nonlinear_arith)
            requires
                0 <= s < n,
                es > 0,
        ;
    }
    lemma_picked_len(data, es, n, f);
    assert forall|o: int| 0 <= o < n implies 0 <= #[trigger] g(o) && g(o) * es + es <= n * es by {
        lemma_positive(r, c, o);
        lemma_place(c, r, o);
        let s = g(o);
        assert(s * es + es <= n * es) by (nonlinear_arith)
            requires
                0 <= s < n,
                es > 0,
        ;
    }
    lemma_picked_len(once, es, n, g);
    let twice = flipped(once, es, c, r);
    assert forall|o: int| 0 <= o < n implies #[trigger] element(twice, es, o) == element(
        data,
        es,
        o,
    ) by {
        lemma_positive(r, c, o);
        lemma_place(c, r, o);
        lemma_picked_element(once, es, n, g, o);
        let (i, j) = (o / c, o % c);
        assert(g(o) == j * r + i);
        lemma_cell(r, c, i, j);
        lemma_picked_element(data, es, n, f, g(o));
        assert(f(g(o)) == i * c + j);
    }
    lemma_same_elements(twice, data, es, n);
}

proof fn lemma_positive(r: int, c: int, o: int)
    requires
        r >= 0,
        c >= 0,
        0 <= o < r * c,
    ensures
        r > 0,
        c > 0,
{
    assert(r > 0 && c > 0) by (nonlinear_arith)
        requires
            r >= 0,
            c >= 0,
            r * c > 0,
    ;
}

// --- any number of dimensions -----------------------------------------------------------

/// The dimensions in the order that `perm` gives.
pub open spec fn permuted(shape: Seq<i64>, perm: Seq<usize>) -> Seq<i64> {
    Seq::new(perm.len(), |d: int| shape[perm[d] as int])
}

/// Whether `perm` names a dimension of `shape` for each of them.
pub open spec fn perm_fits(shape: Seq<i64>, perm: Seq<usize>) -> bool {
    perm.len() == shape.len() && forall|d: int|
        0 <= d < perm.len() ==> #[trigger] perm[d] < shape.len()
}

/// How far apart in the input neighbours along dimension `d` of the result lie.
pub open spec fn perm_stride(shape: Seq<i64>, perm: Seq<usize>) -> spec_fn(int) -> int {
    |d: int| suffix(shape, perm[d] + 1)
}

/// Where the element at place `o` of the result stands in the input.
pub open spec fn origin(shape: Seq<i64>, perm: Seq<usize>, o: int) -> int {
    weighted(
        |d: int| coord(permuted(shape, perm), o, d),
        perm_stride(shape, perm),
        perm.len() as int,
    )
}

/// The last place of the input that the result takes an element from.
pub open spec fn reach(shape: Seq<i64>, perm: Seq<usize>) -> int {
    weighted(
        |d: int| permuted(shape, perm)[d] - 1,
        perm_stride(shape, perm),
        perm.len() as int,
    )
}

/// The tensor with its dimensions permuted. A list that is not a permutation is refused where
/// the result would need elements that are not there.
pub open spec fn transposed_of(t: TensorView, perm: Seq<usize>) -> Option<TensorView> {
    let es = size_of_code(t.dtype) as int;
    let out = permuted(t.shape, perm);
    if es == 0 || fault(t) is Some || !perm_fits(t.shape, perm) {
        None
    } else {
        match count_of(out) {
            None => None,
            Some(n) => if n == 0 {
                Some(TensorView { dtype: t.dtype, shape: out, data: Seq::empty() })
            } else if elements(t) > 0 && reach(t.shape, perm) < elements(t) && n * es
                <= usize::MAX {
                Some(
                    TensorView {
                        dtype: t.dtype,
                        shape: out,
                        data: picked(t.data, es, n, |o: int| origin(t.shape, perm, o)),
                    },
                )
            } else {
                None
            },
        }
    }
}

proof fn lemma_weighted_le(
    f: spec_fn(int) -> int,
    g: spec_fn(int) -> int,
    w: spec_fn(int) -> int,
    n: int,
)
    requires
        forall|k: int| 0 <= k < n ==> 0 <= #[trigger] f(k) <= g(k),
        forall|k: int| 0 <= k < n ==> 0 <= #[trigger] w(k),
    ensures
        0 <= weighted(f, w, n) <= weighted(g, w, n),
    decreases n,
{
    if n > 0 {
        lemma_weighted_le(f, g, w, n - 1);
        let (a, b, c) = (f(n - 1), g(n - 1), w(n - 1));
        assert(0 <= a * c <= b * c) by (nonlinear_arith)
            requires
                0 <= a <= b,
                0 <= c,
        ;
    }
}

/// The elements of the result come from places up to the last.
pub proof fn lemma_origin(shape: Seq<i64>, perm: Seq<usize>, o: int)
    requires
        positive(shape),
        perm_fits(shape, perm),
    ensures
        0 <= origin(shape, perm, o) <= reach(shape, perm),
{
    let out = permuted(shape, perm);
    let f = |d: int| coord(out, o, d);
    let g = |d: int| out[d] - 1;
    let w = perm_stride(shape, perm);
    assert(positive(out));
    assert forall|k: int| 0 <= k < perm.len() implies 0 <= #[trigger] f(k) <= g(k) by {
        lemma_coord_bound(out, o, k);
    }
    assert forall|k: int| 0 <= k < perm.len() implies 0 <= #[trigger] w(k) by {
        lemma_suffix_positive(shape, perm[k] + 1);
    }
    lemma_weighted_le(f, g, w, perm.len() as int);
}

/// The dimensions in the order that `perm` gives, where it names one for each.
fn permuted_dims(shape: &[i64], perm: &[usize]) -> (r: Option<Vec<i64>>)
    ensures
        match r {
            Some(s) => perm_fits(shape@, perm@) && s@ == permuted(shape@, perm@),
            None => !perm_fits(shape@, perm@),
        },
{
    let n: usize = shape.len();
    if perm.len() != n {
        return None;
    }
    let mut r: Vec<i64> = Vec::new();
    let mut d: usize = 0;
    while d < n
        invariant
            d <= n,
            n == shape@.len(),
            n == perm@.len(),
            r@ == permuted(shape@, perm@).take(d as int),
            forall|k: int| 0 <= k < d ==> #[trigger] perm@[k] < n,
        decreases n - d,
    {
        if perm[d] >= n {
            assert(perm@[d as int] >= n);
            return None;
        }
        r.push(shape[perm[d]]);
        d += 1;
        assert(r@ =~= permuted(shape@, perm@).take(d as int));
    }
    assert(permuted(shape@, perm@).take(n as int) =~= permuted(shape@, perm@));
    Some(r)
}

/// The strides of the input in the order that `perm` gives.
fn permuted_strides(shape: &[i64], perm: &[usize]) -> (r: Vec<usize>)
    requires
        perm_fits(shape@, perm@),
        positive(shape@),
        suffix(shape@, 0) <= usize::MAX,
    ensures
        r@.len() == perm@.len(),
        forall|d: int|
            0 <= d < r@.len() ==> #[trigger] r@[d] == (perm_stride(shape@, perm@))(d),
{
    let strides = strides_of(shape);
    let n: usize = perm.len();
    let mut r: Vec<usize> = Vec::new();
    let mut d: usize = 0;
    while d < n
        invariant
            d <= n,
            n == perm@.len(),
            perm_fits(shape@, perm@),
            strides@.len() == shape@.len(),
            forall|k: int| 0 <= k < strides@.len() ==> #[trigger] strides@[k] == suffix(shape@, k + 1),
            r@.len() == d,
            forall|k: int| 0 <= k < d ==> #[trigger] r@[k] == (perm_stride(shape@, perm@))(k),
        decreases n - d,
    {
        assert(perm@[d as int] < shape@.len());
        let s: usize = strides[perm[d]];
        assert(s == (perm_stride(shape@, perm@))(d as int));
        r.push(s);
        d += 1;
    }
    r
}

/// The last place that is taken, where it can be held.
fn reach_of(out: &[i64], strides: &[usize], Ghost(w): Ghost<spec_fn(int) -> int>) -> (r: Option<usize>)
    requires
        out@.len() == strides@.len(),
        positive(out@),
        forall|k: int| 0 <= k < out@.len() ==> #[trigger] strides@[k] == w(k),
    ensures
        match r {
            Some(v) => v == weighted(|d: int| out@[d] - 1, w, out@.len() as int),
            None => weighted(|d: int| out@[d] - 1, w, out@.len() as int) > usize::MAX,
        },
{
    let ghost g = |d: int| out@[d] - 1;
    let n: usize = out.len();
    let mut sum: usize = 0;
    let mut d: usize = 0;
    while d < n
        invariant
            d <= n,
            n == out@.len(),
            n == strides@.len(),
            positive(out@),
            g == (|d: int| out@[d] - 1),
            forall|k: int| 0 <= k < n ==> #[trigger] strides@[k] == w(k),
            sum == weighted(g, w, d as int),
        decreases n - d,
    {
        proof {
            assert(out@[d as int] > 0);
            assert(strides@[d as int] == w(d as int));
            assert forall|k: int| 0 <= k < n implies 0 <= #[trigger] g(k) by {
                assert(out@[k] > 0);
            }
            assert forall|k: int| 0 <= k < n implies 0 <= #[trigger] w(k) by {
                assert(strides@[k] == w(k));
            }
            crate::shape::lemma_weighted_grows(g, w, d + 1, n as int);
            crate::shape::lemma_weighted_grows(g, w, d as int, n as int);
            let (a, b) = (g(d as int), w(d as int));
            assert(a * b >= 0) by (nonlinear_arith)
                requires
                    a >= 0,
                    b >= 0,
            ;
            assert(b == 0 ==> a * b == 0) by (nonlinear_arith);
            if a > usize::MAX && b >= 1 {
                assert(a * b > usize::MAX) by (nonlinear_arith)
                    requires
                        a > usize::MAX,
                        b >= 1,
                ;
            }
        }
        let steps: i64 = out[d] - 1;
        if steps as u64 > usize::MAX as u64 && strides[d] > 0 {
            return None;
        }
        if strides[d] > 0 {
            match (steps as usize).checked_mul(strides[d]) {
                Some(p) => match sum.checked_add(p) {
                    Some(s) => {
                        sum = s;
                    },
                    None => {
                        return None;
                    },
                },
                None => {
                    return None;
                },
            }
        }
        d += 1;
    }
    Some(sum)
}

/// Where the element at place `o` of the result stands in the input.
fn origin_of(
    o: usize,
    out: &[i64],
    own: &[usize],
    strides: &[usize],
    Ghost(w): Ghost<spec_fn(int) -> int>,
) -> (r: usize)
    requires
        out@.len() == strides@.len(),
        out@.len() == own@.len(),
        positive(out@),
        forall|k: int| 0 <= k < out@.len() ==> #[trigger] own@[k] == suffix(out@, k + 1),
        forall|k: int| 0 <= k < out@.len() ==> #[trigger] own@[k] >= 1,
        forall|k: int| 0 <= k < out@.len() ==> #[trigger] strides@[k] == w(k),
        weighted(|d: int| out@[d] - 1, w, out@.len() as int) <= usize::MAX,
        forall|k: int| 0 <= k < out@.len() ==> #[trigger] out@[k] <= usize::MAX,
    ensures
        r == weighted(|d: int| coord(out@, o as int, d), w, out@.len() as int),
{
    let ghost f = |d: int| coord(out@, o as int, d);
    let ghost g = |d: int| out@[d] - 1;
    let n: usize = out.len();
    proof {
        assert forall|k: int| 0 <= k < n implies 0 <= #[trigger] f(k) <= g(k) by {
            lemma_coord_bound(out@, o as int, k);
        }
        assert forall|k: int| 0 <= k < n implies 0 <= #[trigger] w(k) by {
            assert(strides@[k] == w(k));
        }
        lemma_weighted_le(f, g, w, n as int);
    }
    let mut src: usize = 0;
    let mut d: usize = 0;
    while d < n
        invariant
            d <= n,
            n == out@.len(),
            n == own@.len(),
            n == strides@.len(),
            positive(out@),
            f == (|d: int| coord(out@, o as int, d)),
            forall|k: int| 0 <= k < n ==> 0 <= #[trigger] f(k),
            forall|k: int| 0 <= k < n ==> 0 <= #[trigger] w(k),
            forall|k: int| 0 <= k < n ==> #[trigger] own@[k] == suffix(out@, k + 1),
            forall|k: int| 0 <= k < n ==> #[trigger] own@[k] >= 1,
            forall|k: int| 0 <= k < n ==> #[trigger] strides@[k] == w(k),
            forall|k: int| 0 <= k < n ==> #[trigger] out@[k] <= usize::MAX,
            weighted(f, w, n as int) <= usize::MAX,
            src == weighted(f, w, d as int),
        decreases n - d,
    {
        assert(out@[d as int] > 0);
        assert(out@[d as int] <= usize::MAX);
        assert(own@[d as int] >= 1);
        let c: usize = o / own[d] % (out[d] as usize);
        proof {
            assert(c == f(d as int));
            assert(strides@[d as int] == w(d as int));
            crate::shape::lemma_weighted_grows(f, w, d + 1, n as int);
            crate::shape::lemma_weighted_grows(f, w, d as int, n as int);
            let (a, b) = (f(d as int), w(d as int));
            assert(a * b >= 0) by (nonlinear_arith)
                requires
                    a >= 0,
                    b >= 0,
            ;
        }
        src = src + c * strides[d];
        d += 1;
    }
    src
}

/// For a matrix with its dimensions swapped, the elements come from where the transposition
/// takes them.
proof fn lemma_swapped(shape: Seq<i64>, perm: Seq<usize>, o: int)
    requires
        shape.len() == 2,
        perm == seq![1usize, 0usize],
        shape[0] > 0,
        shape[1] > 0,
        0 <= o < shape[0] * shape[1],
    ensures
        origin(shape, perm, o) == flip_source(shape[0] as int, shape[1] as int, o),
{
    let (r, c) = (shape[0] as int, shape[1] as int);
    let out = permuted(shape, perm);
    assert(out =~= seq![shape[1], shape[0]]);
    reveal_with_fuel(suffix, 4);
    assert(suffix(out, 2) == 1);
    assert(suffix(out, 1) == r);
    assert(suffix(shape, 2) == 1);
    assert(suffix(shape, 1) == c);
    lemma_place(r, c, o);
    assert(coord(out, o, 0) == o / r % c);
    vstd::arithmetic::div_mod::lemma_small_mod((o / r) as nat, c as nat);
    assert(o / 1 == o);
    assert(coord(out, o, 1) == o % r);
    reveal_with_fuel(weighted, 3);
    let f = |d: int| coord(out, o, d);
    let w = perm_stride(shape, perm);
    assert(w(0) == 1 && w(1) == c);
    assert(weighted(f, w, 2) == f(0) * 1 + f(1) * c);
}

/// Permutes the dimensions of a tensor on the host.
pub fn host_transpose(h: &HostTensor, perm: &[usize]) -> (r: Result<HostTensor>)
    ensures
        match (r, transposed_of(h@, perm@)) {
            (Ok(t), Some(v)) => t@ == v,
            (Err(e), None) => e.kind() == Kind::Backend,
            _ => false,
        },
{
    let es: usize = elem_size(h.dtype);
    if es == 0 {
        return Err(backend_error("the elements have no size"));
    }
    match h.validate() {
        Ok(_) => {},
        Err(_) => {
            return Err(backend_error("the tensor is not valid"));
        },
    }
    let out: Vec<i64> = match permuted_dims(h.shape.as_slice(), perm) {
        Some(o) => o,
        None => {
            return Err(backend_error("the order does not name every dimension"));
        },
    };
    let n: usize = match element_count(out.as_slice()) {
        Ok(n) => n,
        Err(_) => {
            return Err(backend_error("the output is too large"));
        },
    };
    proof {
        lemma_sound_len(h@);
        lemma_count(h.shape@);
        lemma_count(out@);
        lemma_whole(h.shape@);
        lemma_whole(out@);
    }
    if n == 0 {
        let data: Vec<u8> = Vec::new();
        assert(data@ =~= Seq::empty());
        return Ok(HostTensor { dtype: h.dtype, shape: out, data });
    }
    let count: usize = h.elem_count();
    if count == 0 {
        return Err(backend_error("the order does not name every dimension"));
    }
    proof {
        lemma_nonempty(h.shape@);
        lemma_nonempty(out@);
    }
    if h.shape.len() == 2 && perm[0] == 1 && perm[1] == 0 {
        proof {
            let shape = h.shape@;
            let (r, c, e) = (shape[0] as int, shape[1] as int, es as int);
            assert(perm@ =~= seq![1usize, 0usize]);
            reveal_with_fuel(suffix, 4);
            assert(suffix(shape, 0) == r * (c * 1));
            assert(out@ =~= seq![shape[1], shape[0]]);
            assert(suffix(out@, 0) == c * (r * 1));
            assert(r * c == c * r) by (nonlinear_arith);
            assert(n == r * c);
            let f = |o: int| origin(shape, perm@, o);
            let g = |o: int| flip_source(r, c, o);
            assert forall|o: int| 0 <= o < n implies #[trigger] f(o) == g(o) by {
                lemma_swapped(shape, perm@, o);
            }
            lemma_picked_same(h.data@, e, n as int, f, g);
            reveal_with_fuel(weighted, 3);
            let w = perm_stride(shape, perm@);
            assert(w(0) == 1 && w(1) == c);
            let k = |d: int| out@[d] - 1;
            assert(reach(shape, perm@) == k(0) * w(0) + k(1) * w(1));
            assert((r - 1) * c == r * c - c) by (nonlinear_arith);
        }
        return host_transpose_2d(h, out.as_slice(), es);
    }
    let strides = permuted_strides(h.shape.as_slice(), perm);
    let ghost w = perm_stride(h.shape@, perm@);
    match reach_of(out.as_slice(), strides.as_slice(), Ghost(w)) {
        Some(last) => {
            if last >= count {
                return Err(backend_error("the result needs elements that are not there"));
            }
        },
        None => {
            return Err(backend_error("the result needs elements that are not there"));
        },
    }
    if n.checked_mul(es).is_none() {
        return Err(backend_error("the output is too large"));
    }
    let own = strides_of(out.as_slice());
    let mut data: Vec<u8> = Vec::new();
    let ghost f = |o: int| origin(h.shape@, perm@, o);
    let mut o: usize = 0;
    proof {
        assert forall|k: int| 0 <= k < out@.len() implies #[trigger] out@[k] <= usize::MAX by {
            crate::shape::lemma_suffix_bound(out@, k);
            lemma_suffix_positive(out@, k + 1);
            let (a, b) = (out@[k] as int, suffix(out@, k + 1));
            assert(a <= a * b) by (nonlinear_arith)
                requires
                    a >= 0,
                    b >= 1,
            ;
        }
    }
    while o < n
        invariant
            o <= n,
            es > 0,
            es == size_of_code(h.dtype),
            positive(h.shape@),
            positive(out@),
            perm_fits(h.shape@, perm@),
            out@ == permuted(h.shape@, perm@),
            w == perm_stride(h.shape@, perm@),
            reach(h.shape@, perm@) < count,
            h.data@.len() == count * es,
            own@.len() == out@.len(),
            strides@.len() == out@.len(),
            forall|k: int| 0 <= k < out@.len() ==> #[trigger] own@[k] == suffix(out@, k + 1),
            forall|k: int| 0 <= k < out@.len() ==> #[trigger] own@[k] >= 1,
            forall|k: int| 0 <= k < out@.len() ==> #[trigger] strides@[k] == w(k),
            forall|k: int| 0 <= k < out@.len() ==> #[trigger] out@[k] <= usize::MAX,
            f == (|o: int| origin(h.shape@, perm@, o)),
            data@ == picked(h.data@, es as int, o as int, f),
        decreases n - o,
    {
        proof {
            lemma_origin(h.shape@, perm@, o as int);
        }
        let s: usize = origin_of(
            o,
            out.as_slice(),
            own.as_slice(),
            strides.as_slice(),
            Ghost(w),
        );
        proof {
            assert(s == f(o as int));
            let (a, b, c) = (s as int, es as int, count as int);
            assert(a * b + b <= c * b) by (nonlinear_arith)
                requires
                    a + 1 <= c,
                    b > 0,
            ;
        }
        push_element(&mut data, h.data.as_slice(), s, es);
        o += 1;
    }
    Ok(HostTensor { dtype: h.dtype, shape: out, data })
}

// --- the operator -----------------------------------------------------------------------

/// The order of the dimensions that `Transpose` asks for: an attribute, by default reversed.
pub open spec fn perm_of(node: NodeIr, rank: int) -> Option<Seq<usize>> {
    match node.ints_attr("perm"@) {
        Some(p) => if p.len() == rank && forall|d: int|
            0 <= d < p.len() ==> 0 <= #[trigger] p[d] < rank {
            Some(p.map_values(|x: i64| x as usize))
        } else {
            None
        },
        None => Some(Seq::new(rank as nat, |d: int| (rank - 1 - d) as usize)),
    }
}

/// The order of the dimensions that `Transpose` asks for.
pub fn transpose_perm(node: &NodeIr, rank: usize) -> (r: Result<Vec<usize>>)
    ensures
        match (r, perm_of(*node, rank as int)) {
            (Ok(p), Some(v)) => p@ == v,
            (Err(e), None) => e.kind() == Kind::Backend,
            _ => false,
        },
{
    let mut perm: Vec<usize> = Vec::new();
    match node.attr_ints("perm") {
        Some(p) => {
            if p.len() != rank {
                return Err(backend_error("the order does not name every dimension"));
            }
            let ghost want = p@.map_values(|x: i64| x as usize);
            let mut d: usize = 0;
            while d < rank
                invariant
                    d <= rank,
                    rank == p@.len(),
                    want == p@.map_values(|x: i64| x as usize),
                    node.ints_attr("perm"@) == Some(p@),
                    forall|k: int| 0 <= k < d ==> 0 <= #[trigger] p@[k] < rank,
                    perm@ == want.take(d as int),
                decreases rank - d,
            {
                let x: i64 = p[d];
                if x < 0 || x as u64 >= rank as u64 {
                    assert(!(0 <= p@[d as int] < rank));
                    return Err(backend_error("the order names a dimension that is not there"));
                }
                perm.push(x as usize);
                d += 1;
                assert(perm@ =~= want.take(d as int));
            }
            assert(want.take(rank as int) =~= want);
        },
        None => {
            let mut d: usize = 0;
            while d < rank
                invariant
                    d <= rank,
                    perm@.len() == d,
                    forall|k: int| 0 <= k < d ==> #[trigger] perm@[k] == rank - 1 - k,
                decreases rank - d,
            {
                perm.push(rank - 1 - d);
                d += 1;
            }
            assert(perm@ =~= Seq::new(rank as nat, |d: int| (rank - 1 - d) as usize));
        },
    }
    Ok(perm)
}

/// Where a transposition is done.
#[derive(Debug, Clone, Copy, PartialEq, Eq, Structural)]
pub enum Route {
    Device,
    /// On the host once, then kept on the device.
    Kept,
    Host,
}

/// From how many bytes on the transposed matrix of a constant is kept.
pub const KEPT_BYTES: u64 = 1_000_000;

/// Elements of four bytes are moved on the device where they are there already; large constant
/// matrices are kept; the rest is done on the host.
pub open spec fn route_of(
    resident: bool,
    constant: bool,
    dtype: i32,
    shape: Seq<i64>,
    perm: Seq<usize>,
) -> Route {
    if resident && size_of_code(dtype) == 4 {
        Route::Device
    } else if constant && shape.len() == 2 && perm == seq![1usize, 0usize] && shape[0] > 0
        && shape[1] > 0 && shape[0] * shape[1] * size_of_code(dtype) > KEPT_BYTES {
        Route::Kept
    } else {
        Route::Host
    }
}

/// Where a transposition is done.
pub fn transpose_route(
    resident: bool,
    constant: bool,
    dtype: i32,
    shape: &[i64],
    perm: &[usize],
) -> (r: Route)
    ensures
        r == route_of(resident, constant, dtype, shape@, perm@),
{
    let es: usize = elem_size(dtype);
    if resident && es == 4 {
        return Route::Device;
    }
    if constant && shape.len() == 2 && perm.len() == 2 && perm[0] == 1 && perm[1] == 0 && shape[0]
        > 0 && shape[1] > 0 {
        assert(perm@ =~= seq![1usize, 0usize]);
        let (r, c): (i64, i64) = (shape[0], shape[1]);
        proof {
            let (a, b, e) = (r as int, c as int, es as int);
            assert(1 <= a * b <= 0x4000_0000_0000_0000_0000_0000_0000_0000) by (nonlinear_arith)
                requires
                    1 <= a <= 0x8000_0000_0000_0000,
                    1 <= b <= 0x8000_0000_0000_0000,
            ;
            let n = a * b;
            assert(n > 1_000_000 && e >= 1 ==> n * e > 1_000_000) by (nonlinear_arith);
            assert(e == 0 ==> n * e == 0) by (nonlinear_arith);
            assert(n <= 1_000_000 && e <= 16 ==> 0 <= n * e <= 16_000_000) by (nonlinear_arith)
                requires
                    n >= 1,
                    e >= 0,
            ;
        }
        let n: i128 = (r as i128) * (c as i128);
        if es > 0 && (n > KEPT_BYTES as i128 || (n as u64) * (es as u64) > KEPT_BYTES) {
            return Route::Kept;
        }
    }
    Route::Host
}

/// The dimensions of the result as the kernel reads them.
pub open spec fn dim_words(out: Seq<i64>) -> Seq<u32> {
    Seq::new(
        MAX_RANK as nat,
        |d: int|
            if d < out.len() {
                if out[d] < 0 {
                    0u32
                } else {
                    w32(out[d] as int)
                }
            } else {
                1u32
            },
    )
}

/// The strides of the input in the order of the result, as the kernel reads them.
pub open spec fn perm_words(shape: Seq<i64>, perm: Seq<usize>) -> Seq<u32> {
    padded(Seq::new(perm.len(), |d: int| w32(clipped_suffix(shape, perm[d] + 1))))
}

/// The plan of a transposition on the device.
pub open spec fn transpose_plan_of(dtype: i32, shape: Seq<i64>, perm: Seq<usize>) -> Option<PlanView> {
    let out = permuted(shape, perm);
    if !perm_fits(shape, perm) || shape.len() > MAX_RANK || size_of_code(dtype) != 4
        || !strides_fit(shape) {
        None
    } else {
        match volume_of(out) {
            None => None,
            Some(n) => match output_of(dtype, out, n) {
                None => None,
                Some(p) => Some(
                    one_output(
                        p,
                        if n == 0 {
                            Seq::empty()
                        } else {
                            seq![
                                run_of(
                                    Kernel::Transpose,
                                    seq![Slot::Input(0), Slot::Output(0)],
                                    seq![w32(n), w32(shape.len() as int), 0u32, 0u32] + dim_words(out)
                                        + perm_words(shape, perm),
                                    ceil_div(w32(n) as int, 256),
                                    1,
                                    1,
                                ),
                            ]
                        },
                    ),
                ),
            },
        }
    }
}

/// Plans a transposition on the device.
pub fn transpose_device(dtype: i32, shape: &[i64], perm: &[usize]) -> (r: Result<Plan>)
    ensures
        planned(r, transpose_plan_of(dtype, shape@, perm@)),
{
    let rank: usize = shape.len();
    let out: Vec<i64> = match permuted_dims(shape, perm) {
        Some(o) => o,
        None => {
            return Err(backend_error("the order does not name every dimension"));
        },
    };
    let ghost o = out@;
    if rank > MAX_RANK || elem_size(dtype) != 4 || !strides_held(shape) {
        return Err(backend_error("the kernel cannot walk this tensor"));
    }
    let n: usize = match volume(out.as_slice()) {
        Some(n) => n,
        None => {
            return Err(backend_error("the output is too large"));
        },
    };
    let strides = row_major_strides(shape);
    let mut push: Vec<u32> = vec![size_word(n), size_word(rank), 0, 0];
    let ghost head = push@;
    assert(head =~= seq![w32(n as int), w32(rank as int), 0u32, 0u32]);
    let mut d: usize = 0;
    assert(push@ =~= head + dim_words(o).take(0));
    while d < MAX_RANK
        invariant
            d <= MAX_RANK,
            rank == o.len(),
            o == out@,
            push@ == head + dim_words(o).take(d as int),
        decreases MAX_RANK - d,
    {
        let w: u32 = if d < rank {
            if out[d] < 0 {
                0
            } else {
                word(out[d])
            }
        } else {
            1
        };
        push.push(w);
        d += 1;
        assert(push@ =~= head + dim_words(o).take(d as int));
    }
    assert(dim_words(o).take(MAX_RANK as int) =~= dim_words(o));
    let mut own: Vec<u32> = Vec::new();
    let ghost want = Seq::new(perm@.len(), |d: int| w32(clipped_suffix(shape@, perm@[d] + 1)));
    let mut d: usize = 0;
    while d < rank
        invariant
            d <= rank,
            rank == perm@.len(),
            rank == shape@.len(),
            perm_fits(shape@, perm@),
            strides@.len() == rank,
            forall|k: int| 0 <= k < rank ==> #[trigger] strides@[k] == clipped_suffix(shape@, k + 1),
            want == Seq::new(perm@.len(), |d: int| w32(clipped_suffix(shape@, perm@[d] + 1))),
            own@ == want.take(d as int),
        decreases rank - d,
    {
        assert(perm@[d as int] < shape@.len());
        own.push(word(strides[perm[d]]));
        d += 1;
        assert(own@ =~= want.take(d as int));
    }
    assert(own@ =~= want);
    extend_padded(&mut push, own.as_slice());
    assert(push@ =~= seq![w32(n as int), w32(rank as int), 0u32, 0u32] + dim_words(o) + perm_words(
        shape@,
        perm@,
    ));
    let produced: Produced = match output(dtype, out, n) {
        Ok(p) => p,
        Err(e) => {
            return Err(e);
        },
    };
    if n == 0 {
        return Ok(simple(produced, None));
    }
    let slots: Vec<Slot> = vec![Slot::Input(0), Slot::Output(0)];
    assert(slots@ =~= seq![Slot::Input(0), Slot::Output(0)]);
    Ok(
        simple(
            produced,
            Some(run(Kernel::Transpose, slots, push, groups(size_word(n), 256), 1, 1)),
        ),
    )
}

/// The name under which the transposed matrix of a constant is kept.
pub open spec fn kept_key(name: Seq<char>, dtype: i32, shape: Seq<i64>) -> PackedKeyView {
    PackedKeyView {
        name: name + "#transposed"@ + text::signed_digits(dtype as int),
        rows: shape[0] as int,
        cols: shape[1] as int,
    }
}

/// The name under which the transposed matrix of a constant is kept.
pub fn transposed_key(name: &str, dtype: i32, rows: usize, cols: usize) -> (r: PackedKey)
    ensures
        r@ == (PackedKeyView {
            name: name@ + "#transposed"@ + text::signed_digits(dtype as int),
            rows: rows as int,
            cols: cols as int,
        }),
{
    let stem = text::joined(name, "#transposed");
    PackedKey {
        name: text::joined(stem.as_str(), text::signed_decimal(dtype as i64).as_str()),
        rows,
        cols,
    }
}

/// The plan that gives a kept transposed matrix to the output; `data` holds its bytes where it
/// is not kept yet.
pub open spec fn kept_transpose_of(
    name: Seq<char>,
    dtype: i32,
    shape: Seq<i64>,
    data: Option<Seq<u8>>,
) -> Option<PlanView> {
    match volume_of(shape) {
        None => None,
        Some(n) => match device_bytes(dtype, n) {
            Err(_) => None,
            Ok(bytes) => Some(
                PlanView {
                    outputs: seq![
                        ProducedView {
                            dtype,
                            shape: seq![shape[1], shape[0]],
                            elem_count: n,
                            storage: Storage::Scratch(0),
                        },
                    ],
                    scratch: seq![ScratchView::Kept(kept_key(name, dtype, shape), bytes)],
                    commands: match data {
                        Some(d) if d.len() > 0 => seq![CommandView::Upload(0, d)],
                        _ => Seq::empty(),
                    },
                },
            ),
        },
    }
}

pub open spec fn optional_bytes(data: Option<Vec<u8>>) -> Option<Seq<u8>> {
    match data {
        Some(d) => Some(d@),
        None => None,
    }
}

/// Plans the use of a kept transposed matrix.
pub fn transpose_cached_initializer(
    name: &str,
    dtype: i32,
    shape: &[i64],
    data: Option<Vec<u8>>,
) -> (r: Result<Plan>)
    requires
        shape@.len() == 2,
        0 <= shape@[0] <= usize::MAX,
        0 <= shape@[1] <= usize::MAX,
    ensures
        planned(r, kept_transpose_of(name@, dtype, shape@, optional_bytes(data))),
{
    let n: usize = match volume(shape) {
        Some(n) => n,
        None => {
            return Err(backend_error("the matrix is too large"));
        },
    };
    let bytes: u64 = match buffer_bytes(dtype, n) {
        Ok(b) => b,
        Err(e) => {
            return Err(e);
        },
    };
    let key = transposed_key(name, dtype, shape[0] as usize, shape[1] as usize);
    let turned: Vec<i64> = vec![shape[1], shape[0]];
    assert(turned@ =~= seq![shape@[1], shape@[0]]);
    let ghost given = optional_bytes(data);
    let mut commands: Vec<Command> = Vec::new();
    match data {
        Some(d) => {
            if d.len() > 0 {
                commands.push(Command::Upload(0, d));
            }
        },
        None => {},
    }
    let produced = Produced { dtype, shape: turned, elem_count: n, storage: Storage::Scratch(0) };
    let plan = assembled(vec![produced], vec![Scratch::Kept(key, bytes)], commands);
    proof {
        let want = kept_transpose_of(name@, dtype, shape@, given)->Some_0;
        assert(plan@.outputs =~= want.outputs);
        assert(plan@.scratch =~= want.scratch);
        assert(plan@.commands =~= want.commands);
    }
    Ok(plan)
}

} // verus!
