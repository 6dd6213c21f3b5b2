//! Sets of small integers, one bit each, packed into 64-bit words.

use vstd::prelude::*;

verus! {

/// A bit set: one word for every 64 possible members.
pub type Bits = Vec<u64>;

/// Whether bit `k` of `w` is set.
pub open spec fn word_bit(w: u64, k: u64) -> bool {
    (w >> k) & 1u64 == 1u64
}

/// Whether `i` is a member of the set held in `b`.
pub open spec fn bit(b: Seq<u64>, i: int) -> bool {
    0 <= i < 64 * b.len() && word_bit(b[i / 64], (i % 64) as u64)
}

/// The set held in `b`.
pub open spec fn set_of(b: Seq<u64>) -> Set<int> {
    Set::new(|x: int| bit(b, x))
}

/// The number of words that hold `n` bits.
pub fn words(n: usize) -> (r: usize)
    ensures
        r == (n + 63) / 64,
        64 * r >= n,
{
    if n % 64 == 0 {
        n / 64
    } else {
        n / 64 + 1
    }
}

/// The empty set over `w` words.
pub fn empty_bits(w: usize) -> (r: Bits)
    ensures
        r@.len() == w,
        forall|i: int| !bit(r@, i),
{
    let r: Vec<u64> = vec![0u64; w];
    assert forall|i: int| !bit(r@, i) by {
        if 0 <= i < 64 * r@.len() {
            let k = (i % 64) as u64;
            assert(r@[i / 64] == 0);
            assert((0u64 >> k) & 1u64 == 0u64) by (bit_vector);
        }
    }
    r
}

/// Adds `i` to the set.
pub fn set_bit(b: &mut Bits, i: usize)
    requires
        i < 64 * old(b)@.len(),
    ensures
        final(b)@.len() == old(b)@.len(),
        forall|j: int| #[trigger] bit(final(b)@, j) == (bit(old(b)@, j) || j == i),
{
    let k: u64 = (i % 64) as u64;
    let word: u64 = b[i / 64];
    let w: u64 = word | (1u64 << k);
    b.set(i / 64, w);
    assert forall|j: int| #[trigger] bit(b@, j) == (bit(old(b)@, j) || j == i) by {
        if 0 <= j < 64 * b@.len() {
            let m = (j % 64) as u64;
            assert(((word | (1u64 << k)) >> m) & 1u64 == (if m == k {
                1u64
            } else {
                (word >> m) & 1u64
            })) by (bit_vector)
                requires
                    m < 64,
                    k < 64,
            ;
        }
    }
}

/// Adds the members of `src` to `dst`, as far as the words of `dst` reach.
pub fn or_into(dst: &mut Bits, src: &Bits)
    ensures
        final(dst)@.len() == old(dst)@.len(),
        forall|j: int|
            #[trigger] bit(final(dst)@, j) == (bit(old(dst)@, j) || (j < 64 * old(dst)@.len()
                && bit(src@, j))),
{
    let mut k: usize = 0;
    while k < dst.len() && k < src.len()
        invariant
            dst@.len() == old(dst)@.len(),
            k <= dst@.len(),
            k <= src@.len(),
            forall|q: int| 0 <= q < k ==> #[trigger] dst@[q] == old(dst)@[q] | src@[q],
            forall|q: int| k <= q < dst@.len() ==> #[trigger] dst@[q] == old(dst)@[q],
        decreases dst@.len() - k,
    {
        let w: u64 = dst[k] | src[k];
        dst.set(k, w);
        k += 1;
    }
    assert forall|j: int|
        #[trigger] bit(dst@, j) == (bit(old(dst)@, j) || (j < 64 * old(dst)@.len() && bit(
            src@,
            j,
        ))) by {
        if 0 <= j < 64 * dst@.len() {
            let q = j / 64;
            let m = (j % 64) as u64;
            if q < k {
                let x = old(dst)@[q];
                let y = src@[q];
                assert(dst@[q] == x | y);
                lemma_or_bit(x, y, m);
            }
        }
    }
}

/// A bit of `x | y` is set where it is set in `x` or in `y`.
pub proof fn lemma_or_bit(x: u64, y: u64, m: u64)
    requires
        m < 64,
    ensures
        word_bit(x | y, m) == (word_bit(x, m) || word_bit(y, m)),
{
    assert(((x | y) >> m) & 1u64 == ((x >> m) & 1u64) | ((y >> m) & 1u64)) by (bit_vector);
    let a = (x >> m) & 1u64;
    let b = (y >> m) & 1u64;
    assert((x >> m) & 1u64 == 0u64 || (x >> m) & 1u64 == 1u64) by (bit_vector);
    assert((y >> m) & 1u64 == 0u64 || (y >> m) & 1u64 == 1u64) by (bit_vector);
    assert(0u64 | 0u64 == 0u64 && 0u64 | 1u64 == 1u64 && 1u64 | 0u64 == 1u64 && 1u64 | 1u64
        == 1u64) by (bit_vector);
}

/// The union of `a` and `b`, which have the same number of words.
pub fn union_bits(a: &Bits, b: &Bits) -> (r: Bits)
    requires
        a@.len() == b@.len(),
    ensures
        r@.len() == a@.len(),
        forall|j: int| #[trigger] bit(r@, j) == (bit(a@, j) || bit(b@, j)),
{
    let mut r: Bits = a.clone();
    or_into(&mut r, b);
    r
}

/// Whether `s` lists the members of `b` that are not in `mask`, in ascending order.
pub open spec fn lists_outside(s: Seq<usize>, b: Seq<u64>, mask: Seq<u64>) -> bool {
    &&& forall|i: int, j: int| 0 <= i < j < s.len() ==> s[i] < s[j]
    &&& forall|x: int|
        #![trigger bit(b, x)]
        #![trigger bit(mask, x)]
        bit(b, x) && !bit(mask, x) ==> s.contains(x as usize)
    &&& forall|i: int| 0 <= i < s.len() ==> bit(b, (#[trigger] s[i]) as int) && !bit(mask, s[i] as int)
}

/// Replaces `out` by the members of `b` that are not in `mask`, in ascending order.
pub fn set_bits_outside(b: &Bits, mask: &Bits, out: &mut Vec<usize>)
    requires
        b@.len() == mask@.len(),
        64 * b@.len() <= usize::MAX,
    ensures
        lists_outside(final(out)@, b@, mask@),
{
    out.clear();
    let n: usize = b.len();
    let mut k: usize = 0;
    while k < n
        invariant
            n == b@.len(),
            n == mask@.len(),
            64 * n <= usize::MAX,
            k <= n,
            forall|i: int, j: int| 0 <= i < j < out@.len() ==> out@[i] < out@[j],
            forall|x: int|
                #![trigger bit(b@, x)]
                #![trigger bit(mask@, x)]
                x < 64 * k && bit(b@, x) && !bit(mask@, x) ==> out@.contains(x as usize),
            forall|i: int|
                0 <= i < out@.len() ==> out@[i] < 64 * k && bit(b@, (#[trigger] out@[i]) as int)
                    && !bit(mask@, out@[i] as int),
        decreases n - k,
    {
        let word: u64 = b[k];
        let m: u64 = mask[k];
        let mut rest: u64 = word & !m;
        let ghost start = out@;
        proof {
            assert forall|q: u64| q < 64 implies #[trigger] word_bit(rest, q) == (word_bit(word, q)
                && !word_bit(m, q)) by {
                lemma_and_not_bit(word, m, q);
            }
        }
        while rest != 0
            invariant
                n == b@.len(),
                n == mask@.len(),
                64 * n <= usize::MAX,
                k < n,
                word == b@[k as int],
                m == mask@[k as int],
                forall|q: u64|
                    q < 64 ==> (#[trigger] word_bit(rest, q) ==> (word_bit(word, q) && !word_bit(
                        m,
                        q,
                    ))),
                forall|q: u64|
                    #![trigger word_bit(word, q)]
                    q < 64 && word_bit(word, q) && !word_bit(m, q) ==> word_bit(rest, q)
                        || out@.contains((64 * k + q) as usize),
                forall|i: int, q: u64|
                    0 <= i < out@.len() && q < 64 && #[trigger] word_bit(rest, q)
                        ==> #[trigger] out@[i] < 64 * k + q,
                forall|i: int, j: int| 0 <= i < j < out@.len() ==> out@[i] < out@[j],
                start.len() <= out@.len(),
                forall|i: int| 0 <= i < start.len() ==> start[i] == #[trigger] out@[i],
                forall|i: int|
                    0 <= i < out@.len() ==> out@[i] < 64 * (k + 1) && bit(
                        b@,
                        (#[trigger] out@[i]) as int,
                    ) && !bit(mask@, out@[i] as int),
            decreases rest,
        {
            let z: u32 = rest.trailing_zeros();
            let ghost r0 = rest;
            proof {
                vstd::std_specs::bits::axiom_u64_trailing_zeros(rest);
                let zz = z as u64;
                assert(z < 64);
                assert((r0 >> zz) & 1u64 == 1u64);
                assert(r0 << ((64 - zz) as u64) == 0u64);
                lemma_lowest(r0, zz);
            }
            let next: usize = k * 64 + z as usize;
            let ghost before = out@;
            out.push(next);
            rest = rest & (rest - 1);
            proof {
                let zz = z as u64;
                assert(word_bit(r0, zz));
                assert(next as int / 64 == k && next as int % 64 == zz);
                assert(bit(b@, next as int) && !bit(mask@, next as int));
                assert forall|q: u64|
                    #![trigger word_bit(word, q)]
                    q < 64 && word_bit(word, q) && !word_bit(m, q) implies word_bit(rest, q)
                    || out@.contains((64 * k + q) as usize) by {
                    if q == zz {
                        assert(out@[before.len() as int] == (64 * k + q) as usize);
                    } else if !word_bit(r0, q) {
                        let i = before.index_of((64 * k + q) as usize);
                        assert(out@[i] == before[i]);
                    }
                }
                assert forall|i: int, q: u64|
                    0 <= i < out@.len() && q < 64 && #[trigger] word_bit(
                        rest,
                        q,
                    ) implies #[trigger] out@[i] < 64 * k + q by {
                    assert(word_bit(r0, q));
                    assert(zz < q);
                    if i < before.len() {
                        assert(before[i] < 64 * k + q);
                    }
                }
                assert forall|i: int, j: int| 0 <= i < j < out@.len() implies out@[i] < out@[j] by {
                    if j == before.len() {
                        assert(word_bit(r0, zz));
                        assert(before[i] < 64 * k + zz);
                    }
                }
            }
        }
        proof {
            assert forall|x: int|
                #![trigger bit(b@, x)]
                #![trigger bit(mask@, x)]
                x < 64 * (k + 1) && bit(b@, x) && !bit(mask@, x) implies out@.contains(
                x as usize,
            ) by {
                if x < 64 * k {
                    let i = start.index_of(x as usize);
                    assert(out@[i] == start[i]);
                } else {
                    let q = (x % 64) as u64;
                    assert(x / 64 == k);
                    assert(word_bit(word, q) && !word_bit(m, q));
                    assert(!word_bit(0u64, q)) by {
                        assert((0u64 >> q) & 1u64 == 0u64) by (bit_vector);
                    }
                    assert((64 * k + q) as usize == x as usize);
                }
            }
        }
        k += 1;
    }
}

proof fn lemma_and_not_bit(x: u64, y: u64, m: u64)
    requires
        m < 64,
    ensures
        word_bit(x & !y, m) == (word_bit(x, m) && !word_bit(y, m)),
{
    assert((((x & !y) >> m) & 1u64 == 1u64) == (((x >> m) & 1u64 == 1u64) && !((y >> m) & 1u64
        == 1u64))) by (bit_vector)
        requires
            m < 64,
    ;
}

/// Clearing the lowest set bit leaves every other bit, all of them higher.
proof fn lemma_lowest(r: u64, z: u64)
    requires
        z < 64,
        (r >> z) & 1u64 == 1u64,
        r << ((64 - z) as u64) == 0u64,
    ensures
        r != 0,
        r & ((r - 1) as u64) < r,
        forall|q: u64|
            q < 64 ==> (#[trigger] word_bit(r & ((r - 1) as u64), q) == (word_bit(r, q) && q != z)
                && (word_bit(r, q) ==> z <= q)),
{
    assert(r != 0) by (bit_vector)
        requires
            (r >> z) & 1u64 == 1u64,
    ;
    assert(r & ((r - 1) as u64) < r) by (bit_vector)
        requires
            r != 0,
    ;
    assert forall|q: u64| q < 64 implies (#[trigger] word_bit(r & ((r - 1) as u64), q) == (word_bit(
        r,
        q,
    ) && q != z) && (word_bit(r, q) ==> z <= q)) by {
        assert(((((r & ((r - 1) as u64)) >> q) & 1u64 == 1u64) == (((r >> q) & 1u64 == 1u64) && q
            != z)) && (((r >> q) & 1u64 == 1u64) ==> z <= q)) by (bit_vector)
            requires
                z < 64,
                q < 64,
                r != 0,
                (r >> z) & 1u64 == 1u64,
                r << ((64 - z) as u64) == 0u64,
        ;
    }
}

} // verus!
