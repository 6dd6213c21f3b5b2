//! Little-endian integers in byte strings, and elements of fixed size.

use vstd::prelude::*;

verus! {

/// The unsigned 32-bit number in the bytes at `i`.
#[verifier::opaque]
pub open spec fn u32_at(b: Seq<u8>, i: int) -> int {
    b[i] + 0x100 * b[i + 1] + 0x1_0000 * b[i + 2] + 0x100_0000 * b[i + 3]
}

/// The unsigned 64-bit number in the bytes at `i`.
#[verifier::opaque]
pub open spec fn u64_at(b: Seq<u8>, i: int) -> int {
    u32_at(b, i) + 0x1_0000_0000 * u32_at(b, i + 4)
}

/// `u` read as a signed 32-bit number.
pub open spec fn signed32(u: int) -> int {
    if u >= 0x8000_0000 {
        u - 0x1_0000_0000
    } else {
        u
    }
}

/// `u` read as a signed 64-bit number.
pub open spec fn signed64(u: int) -> int {
    if u >= 0x8000_0000_0000_0000 {
        u - 0x1_0000_0000_0000_0000
    } else {
        u
    }
}

/// The four bytes of the lowest 32 bits of `x`.
#[verifier::opaque]
pub open spec fn le32(x: int) -> Seq<u8> {
    seq![
        (x % 0x100) as u8,
        (x / 0x100 % 0x100) as u8,
        (x / 0x1_0000 % 0x100) as u8,
        (x / 0x100_0000 % 0x100) as u8,
    ]
}

/// The eight bytes of the lowest 64 bits of `x`.
#[verifier::opaque]
pub open spec fn le64(x: int) -> Seq<u8> {
    le32(x % 0x1_0000_0000) + le32(x / 0x1_0000_0000)
}

/// The bytes of each number of `v`, four each.
pub open spec fn all_le32(v: Seq<u32>) -> Seq<u8>
    decreases v.len(),
{
    if v.len() == 0 {
        Seq::empty()
    } else {
        all_le32(v.drop_last()) + le32(v.last() as int)
    }
}

/// The bytes of each number of `v`, eight each.
pub open spec fn all_le64(v: Seq<i64>) -> Seq<u8>
    decreases v.len(),
{
    if v.len() == 0 {
        Seq::empty()
    } else {
        all_le64(v.drop_last()) + le64(v.last() as int)
    }
}

pub proof fn lemma_le32(x: int)
    ensures
        le32(x).len() == 4,
        u32_at(le32(x), 0) == x % 0x1_0000_0000,
{
    reveal(le32);
    reveal(u32_at);
    let q1 = x / 0x100;
    let q2 = x / 0x1_0000;
    let q3 = x / 0x100_0000;
    let q4 = x / 0x1_0000_0000;
    assert(q2 == q1 / 0x100);
    assert(q3 == q2 / 0x100);
    assert(q4 == q3 / 0x100);
    assert(x % 0x100 == x - 0x100 * q1);
    assert(q1 % 0x100 == q1 - 0x100 * q2);
    assert(q2 % 0x100 == q2 - 0x100 * q3);
    assert(q3 % 0x100 == q3 - 0x100 * q4);
    assert(x % 0x1_0000_0000 == x - 0x1_0000_0000 * q4);
    let b = le32(x);
    assert(b[0] as int == x % 0x100);
    assert(b[1] as int == q1 % 0x100);
    assert(b[2] as int == q2 % 0x100);
    assert(b[3] as int == q3 % 0x100);
}

/// The lowest 32 bits do not change with the bits above them.
#[verifier::rlimit(40)]
proof fn lemma_le32_wraps(x: int)
    ensures
        le32(x + 0x1_0000_0000) == le32(x),
{
    reveal(le32);
    let y = x + 0x1_0000_0000;
    assert(y % 0x100 == x % 0x100);
    assert(y / 0x100 == x / 0x100 + 0x100_0000);
    assert(y / 0x1_0000 == x / 0x1_0000 + 0x1_0000);
    assert(y / 0x100_0000 == x / 0x100_0000 + 0x100);
    let (a, b) = (le32(y), le32(x));
    assert(a.len() == b.len());
    assert(a[0] == b[0]);
    assert(a[1] == b[1]);
    assert(a[2] == b[2]);
    assert(a[3] == b[3]);
    assert(a =~= b);
}

/// A number depends only on its four bytes.
pub proof fn lemma_u32_moved(a: Seq<u8>, i: int, b: Seq<u8>, j: int)
    requires
        forall|k: int| 0 <= k < 4 ==> #[trigger] a[i + k] == b[j + k],
    ensures
        u32_at(a, i) == u32_at(b, j),
{
    reveal(u32_at);
    assert(a[i + 0] == b[j + 0] && a[i + 1] == b[j + 1] && a[i + 2] == b[j + 2] && a[i + 3] == b[j
        + 3]);
}

/// A number depends only on its eight bytes.
pub proof fn lemma_u64_moved(a: Seq<u8>, i: int, b: Seq<u8>, j: int)
    requires
        forall|k: int| 0 <= k < 8 ==> #[trigger] a[i + k] == b[j + k],
    ensures
        u64_at(a, i) == u64_at(b, j),
{
    reveal(u64_at);
    lemma_u32_moved(a, i, b, j);
    assert forall|k: int| 0 <= k < 4 implies #[trigger] a[i + 4 + k] == b[j + 4 + k] by {
        assert(a[i + (4 + k)] == b[j + (4 + k)]);
    }
    lemma_u32_moved(a, i + 4, b, j + 4);
}

pub proof fn lemma_le64(x: int)
    ensures
        le64(x).len() == 8,
        u64_at(le64(x), 0) == x % 0x1_0000_0000_0000_0000,
{
    let lo = x % 0x1_0000_0000;
    let hi = x / 0x1_0000_0000;
    let b = le64(x);
    reveal(le64);
    reveal(u64_at);
    lemma_le32(lo);
    lemma_le32(hi);
    lemma_u32_moved(b, 0, le32(lo), 0);
    lemma_u32_moved(b, 4, le32(hi), 0);
}

/// Numbers read back from the bytes of a list are those of the list.
pub proof fn lemma_all_le64(v: Seq<i64>, i: int)
    requires
        0 <= i < v.len(),
    ensures
        all_le64(v).len() == 8 * v.len(),
        signed64(u64_at(all_le64(v), 8 * i)) == v[i],
    decreases v.len(),
{
    lemma_all_le64_len(v);
    let rest = v.drop_last();
    let b = all_le64(v);
    lemma_all_le64_len(rest);
    if i < rest.len() {
        lemma_all_le64(rest, i);
        lemma_le64(v.last() as int);
        lemma_u64_moved(b, 8 * i, all_le64(rest), 8 * i);
    } else {
        lemma_le64(v.last() as int);
        lemma_u64_moved(b, 8 * i, le64(v.last() as int), 0);
    }
}

pub proof fn lemma_all_le64_len(v: Seq<i64>)
    ensures
        all_le64(v).len() == 8 * v.len(),
    decreases v.len(),
{
    if v.len() > 0 {
        lemma_all_le64_len(v.drop_last());
        lemma_le64(v.last() as int);
    }
}

pub proof fn lemma_all_le32(v: Seq<u32>, i: int)
    requires
        0 <= i < v.len(),
    ensures
        all_le32(v).len() == 4 * v.len(),
        u32_at(all_le32(v), 4 * i) == v[i],
    decreases v.len(),
{
    lemma_all_le32_len(v);
    let rest = v.drop_last();
    let b = all_le32(v);
    lemma_all_le32_len(rest);
    if i < rest.len() {
        lemma_all_le32(rest, i);
        lemma_le32(v.last() as int);
        lemma_u32_moved(b, 4 * i, all_le32(rest), 4 * i);
    } else {
        lemma_le32(v.last() as int);
        lemma_u32_moved(b, 4 * i, le32(v.last() as int), 0);
    }
}

pub proof fn lemma_all_le32_len(v: Seq<u32>)
    ensures
        all_le32(v).len() == 4 * v.len(),
    decreases v.len(),
{
    if v.len() > 0 {
        lemma_all_le32_len(v.drop_last());
        lemma_le32(v.last() as int);
    }
}

/// The bytes of two lists, one after the other, are those of the joined list.
pub proof fn lemma_all_le32_join(a: Seq<u32>, b: Seq<u32>)
    ensures
        all_le32(a + b) == all_le32(a) + all_le32(b),
    decreases b.len(),
{
    if b.len() == 0 {
        assert(a + b =~= a);
        assert(all_le32(a) + all_le32(b) =~= all_le32(a));
    } else {
        assert((a + b).drop_last() =~= a + b.drop_last());
        lemma_all_le32_join(a, b.drop_last());
        assert(all_le32(a + b) =~= all_le32(a) + all_le32(b));
    }
}

/// Reads the unsigned 32-bit number at `i`.
pub fn read_u32(b: &[u8], i: usize) -> (r: u32)
    requires
        i + 4 <= b@.len(),
    ensures
        r == u32_at(b@, i as int),
{
    let n: usize = b.len();
    reveal(u32_at);
    b[i] as u32 + 0x100 * b[i + 1] as u32 + 0x1_0000 * b[i + 2] as u32 + 0x100_0000 * b[i + 3] as u32
}

/// Reads the unsigned 64-bit number at `i`.
pub fn read_u64(b: &[u8], i: usize) -> (r: u64)
    requires
        i + 8 <= b@.len(),
    ensures
        r == u64_at(b@, i as int),
{
    let n: usize = b.len();
    reveal(u64_at);
    let lo: u32 = read_u32(b, i);
    let hi: u32 = read_u32(b, i + 4);
    lo as u64 + 0x1_0000_0000 * hi as u64
}

/// `u` read as a signed 32-bit number.
pub fn to_signed32(u: u32) -> (r: i64)
    ensures
        r == signed32(u as int),
{
    if u >= 0x8000_0000 {
        u as i64 - 0x1_0000_0000
    } else {
        u as i64
    }
}

/// `u` read as a signed 64-bit number.
pub fn to_signed64(u: u64) -> (r: i64)
    ensures
        r == signed64(u as int),
{
    if u >= 0x8000_0000_0000_0000 {
        let d: u64 = 0xffff_ffff_ffff_ffff - u;
        -1 - (d as i64)
    } else {
        u as i64
    }
}

/// The 64 bits of `v`.
pub fn bits_of(v: i64) -> (r: u64)
    ensures
        r as int == (v as int) % 0x1_0000_0000_0000_0000,
{
    if v >= 0 {
        v as u64
    } else {
        let d: u64 = (-(v + 1)) as u64;
        0xffff_ffff_ffff_ffff - d
    }
}

/// Appends the four bytes of `x`.
pub fn push_u32(out: &mut Vec<u8>, x: u32)
    ensures
        final(out)@ == old(out)@ + le32(x as int),
{
    reveal(le32);
    out.push((x % 0x100) as u8);
    out.push((x / 0x100 % 0x100) as u8);
    out.push((x / 0x1_0000 % 0x100) as u8);
    out.push((x / 0x100_0000 % 0x100) as u8);
    assert(out@ =~= old(out)@ + le32(x as int));
}

/// Appends the eight bytes of `v`.
pub fn push_i64(out: &mut Vec<u8>, v: i64)
    ensures
        final(out)@ == old(out)@ + le64(v as int),
{
    let u: u64 = bits_of(v);
    push_u32(out, (u % 0x1_0000_0000) as u32);
    push_u32(out, (u / 0x1_0000_0000) as u32);
    proof {
        reveal(le64);
        let x = v as int;
        lemma_le32_wraps(x / 0x1_0000_0000);
        if v < 0 {
            assert(u as int == x + 0x1_0000_0000_0000_0000);
            assert((u / 0x1_0000_0000) as int == x / 0x1_0000_0000 + 0x1_0000_0000);
        }
        assert((u % 0x1_0000_0000) as int == x % 0x1_0000_0000);
        assert(out@ =~= old(out)@ + le64(v as int));
    }
}

// --- elements of fixed size -------------------------------------------------------------

/// The bytes of the elements `src(0)`, `src(1)`, ... `src(n - 1)` of `data`, `es` each.
pub open spec fn picked(data: Seq<u8>, es: int, n: int, src: spec_fn(int) -> int) -> Seq<u8>
    decreases n,
{
    if n <= 0 {
        Seq::empty()
    } else {
        picked(data, es, n - 1, src) + element(data, es, src(n - 1))
    }
}

/// The bytes of element `i` of `data`, `es` each.
pub open spec fn element(data: Seq<u8>, es: int, i: int) -> Seq<u8> {
    data.subrange(i * es, i * es + es)
}

pub proof fn lemma_picked_len(data: Seq<u8>, es: int, n: int, src: spec_fn(int) -> int)
    requires
        0 <= n,
        0 <= es,
        forall|i: int| 0 <= i < n ==> 0 <= #[trigger] src(i) && src(i) * es + es <= data.len(),
    ensures
        picked(data, es, n, src).len() == n * es,
    decreases n,
{
    if n > 0 {
        lemma_picked_len(data, es, n - 1, src);
        assert(0 <= src(n - 1) * es) by (nonlinear_arith)
            requires
                0 <= src(n - 1),
                0 <= es,
        ;
        assert(n * es == (n - 1) * es + es) by (nonlinear_arith);
    } else {
        assert(n * es == 0) by (nonlinear_arith)
            requires
                n == 0,
        ;
    }
}

/// Element `i` of what was picked is the element it was picked from.
pub proof fn lemma_picked_element(data: Seq<u8>, es: int, n: int, src: spec_fn(int) -> int, i: int)
    requires
        0 <= i < n,
        0 <= es,
        forall|i: int| 0 <= i < n ==> 0 <= #[trigger] src(i) && src(i) * es + es <= data.len(),
    ensures
        element(picked(data, es, n, src), es, i) == element(data, es, src(i)),
    decreases n,
{
    lemma_picked_len(data, es, n, src);
    lemma_picked_len(data, es, n - 1, src);
    let rest = picked(data, es, n - 1, src);
    let all = picked(data, es, n, src);
    assert(0 <= src(n - 1) * es) by (nonlinear_arith)
        requires
            0 <= src(n - 1),
            0 <= es,
    ;
    if i < n - 1 {
        lemma_picked_element(data, es, n - 1, src, i);
        assert(0 <= i * es && i * es + es <= (n - 1) * es) by (nonlinear_arith)
            requires
                0 <= i < n - 1,
                0 <= es,
        ;
        assert(element(all, es, i) =~= element(rest, es, i));
    } else {
        assert(0 <= i * es) by (nonlinear_arith)
            requires
                0 <= i,
                0 <= es,
        ;
        assert(i * es == (n - 1) * es);
        assert(element(all, es, i) =~= element(data, es, src(n - 1)));
    }
}

/// What is picked depends only on where each element comes from.
pub proof fn lemma_picked_same(
    data: Seq<u8>,
    es: int,
    n: int,
    f: spec_fn(int) -> int,
    g: spec_fn(int) -> int,
)
    requires
        forall|i: int| 0 <= i < n ==> #[trigger] f(i) == g(i),
    ensures
        picked(data, es, n, f) == picked(data, es, n, g),
    decreases n,
{
    if n > 0 {
        lemma_picked_same(data, es, n - 1, f, g);
        assert(f(n - 1) == g(n - 1));
    }
}

/// Appends element `s` of `data`, of `es` bytes.
pub fn push_element(out: &mut Vec<u8>, data: &[u8], s: usize, es: usize)
    requires
        s * es + es <= data@.len(),
    ensures
        final(out)@ == old(out)@ + element(data@, es as int, s as int),
{
    let ghost start = out@;
    let n: usize = data.len();
    proof {
        assert(0 <= s * es) by (nonlinear_arith);
    }
    let at: usize = s * es;
    let mut j: usize = 0;
    assert(start + data@.subrange(at as int, at as int) =~= start);
    while j < es
        invariant
            at == s * es,
            at + es <= n,
            n == data@.len(),
            j <= es,
            out@ == start + data@.subrange(at as int, at + j),
        decreases es - j,
    {
        out.push(data[at + j]);
        j += 1;
        assert(out@ =~= start + data@.subrange(at as int, at + j));
    }
}

/// The byte strings `f(0)`, `f(1)`, ... `f(n - 1)`, one after the other.
pub open spec fn strung(n: int, f: spec_fn(int) -> Seq<u8>) -> Seq<u8>
    decreases n,
{
    if n <= 0 {
        Seq::empty()
    } else {
        strung(n - 1, f) + f(n - 1)
    }
}

/// `n` zero bytes.
pub open spec fn zeros(n: int) -> Seq<u8> {
    Seq::new(n as nat, |i: int| 0u8)
}

/// Appends `n` zero bytes.
pub fn push_zeros(out: &mut Vec<u8>, n: usize)
    ensures
        final(out)@ == old(out)@ + zeros(n as int),
{
    let mut j: usize = 0;
    let ghost start = out@;
    assert(start + zeros(0) =~= start);
    while j < n
        invariant
            j <= n,
            out@ == start + zeros(j as int),
        decreases n - j,
    {
        out.push(0);
        j += 1;
        assert(out@ =~= start + zeros(j as int));
    }
}

} // verus!
