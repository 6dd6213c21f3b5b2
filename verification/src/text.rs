//! Names and short texts: equality, order and decimal rendering.

use vstd::prelude::*;
use vstd::string::StringExecFns;
use vstd::string::StringSliceAdditionalSpecFns;

verus! {

/// Whether two texts hold the same characters.
pub fn same(a: &str, b: &str) -> (r: bool)
    ensures
        r == (a@ == b@),
{
    let x = a.as_bytes();
    let y = b.as_bytes();
    proof {
        vstd::utf8::encode_utf8_decode_utf8(a@);
        vstd::utf8::encode_utf8_decode_utf8(b@);
        assert(x@ == a.spec_bytes());
        assert(y@ == b.spec_bytes());
        assert(x@ == vstd::utf8::encode_utf8(a@));
    }
    if x.len() != y.len() {
        return false;
    }
    let n: usize = x.len();
    let mut i: usize = 0;
    while i < n
        invariant
            n == x@.len(),
            n == y@.len(),
            i <= n,
            forall|k: int| 0 <= k < i ==> x@[k] == y@[k],
            x@ == vstd::utf8::encode_utf8(a@),
            y@ == vstd::utf8::encode_utf8(b@),
        decreases n - i,
    {
        if x[i] != y[i] {
            return false;
        }
        i += 1;
    }
    assert(x@ =~= y@);
    true
}

/// The characters of each text.
pub open spec fn texts(v: Seq<String>) -> Seq<Seq<char>> {
    v.map_values(|s: String| s@)
}

/// The characters of each text of each list.
pub open spec fn name_lists(v: Seq<Vec<String>>) -> Seq<Seq<Seq<char>>> {
    v.map_values(|l: Vec<String>| texts(l@))
}

/// A fresh text holding the characters of `s`.
pub fn owned(s: &str) -> (r: String)
    ensures
        r@ == s@,
{
    String::from_str(s)
}

/// The texts `a` and `b`, one after the other.
pub fn joined(a: &str, b: &str) -> (r: String)
    ensures
        r@ == a@ + b@,
{
    let mut r = String::from_str(a);
    r.append(b);
    r
}

/// The decimal digit `d`.
pub open spec fn digit(d: int) -> Seq<char> {
    if d == 0 {
        "0"@
    } else if d == 1 {
        "1"@
    } else if d == 2 {
        "2"@
    } else if d == 3 {
        "3"@
    } else if d == 4 {
        "4"@
    } else if d == 5 {
        "5"@
    } else if d == 6 {
        "6"@
    } else if d == 7 {
        "7"@
    } else if d == 8 {
        "8"@
    } else {
        "9"@
    }
}

/// The decimal digits of `n`, most significant first, without leading zeros.
pub open spec fn decimal_digits(n: nat) -> Seq<char>
    decreases n,
{
    if n < 10 {
        digit(n as int)
    } else {
        decimal_digits(n / 10) + digit((n % 10) as int)
    }
}

fn digit_text(d: u64) -> (r: &'static str)
    requires
        d < 10,
    ensures
        r@ == digit(d as int),
{
    if d == 0 {
        "0"
    } else if d == 1 {
        "1"
    } else if d == 2 {
        "2"
    } else if d == 3 {
        "3"
    } else if d == 4 {
        "4"
    } else if d == 5 {
        "5"
    } else if d == 6 {
        "6"
    } else if d == 7 {
        "7"
    } else if d == 8 {
        "8"
    } else {
        "9"
    }
}

/// `n` in decimal.
pub fn decimal(n: u64) -> (r: String)
    ensures
        r@ == decimal_digits(n as nat),
    decreases n,
{
    if n < 10 {
        String::from_str(digit_text(n))
    } else {
        let mut r = decimal(n / 10);
        r.append(digit_text(n % 10));
        r
    }
}

/// `n` in decimal, with a leading minus sign where it is negative.
pub open spec fn signed_digits(n: int) -> Seq<char> {
    if n < 0 {
        "-"@ + decimal_digits((-n) as nat)
    } else {
        decimal_digits(n as nat)
    }
}

/// `n` in decimal, with a leading minus sign where it is negative.
pub fn signed_decimal(n: i64) -> (r: String)
    ensures
        r@ == signed_digits(n as int),
{
    if n < 0 {
        let m: u64 = (-(n + 1)) as u64 + 1;
        joined("-", decimal(m).as_str())
    } else {
        decimal(n as u64)
    }
}

/// Whether `a` comes strictly before `b` in byte order of their encodings.
pub open spec fn bytes_before(a: Seq<u8>, b: Seq<u8>) -> bool {
    exists|k: int|
        0 <= k < b.len() && k <= a.len() && #[trigger] a.take(k) == b.take(k) && (k == a.len()
            || a[k] < b[k])
}

/// Whether the text `a` sorts strictly before the text `b`.
pub open spec fn sorts_before(a: Seq<char>, b: Seq<char>) -> bool {
    bytes_before(vstd::utf8::encode_utf8(a), vstd::utf8::encode_utf8(b))
}

/// Whether `a` sorts strictly before `b`, comparing their encodings byte by byte.
pub fn before(a: &str, b: &str) -> (r: bool)
    ensures
        r == sorts_before(a@, b@),
{
    let x = a.as_bytes();
    let y = b.as_bytes();
    assert(x@ == a.spec_bytes());
    assert(y@ == b.spec_bytes());
    let mut i: usize = 0;
    while i < x.len() && i < y.len() && x[i] == y[i]
        invariant
            i <= x@.len(),
            i <= y@.len(),
            forall|k: int| 0 <= k < i ==> x@[k] == y@[k],
        decreases x@.len() - i,
    {
        i += 1;
    }
    let r = i < y.len() && (i == x.len() || x[i] < y[i]);
    proof {
        let xs = x@;
        let ys = y@;
        if r {
            assert(xs.take(i as int) =~= ys.take(i as int));
            assert(bytes_before(xs, ys));
        } else if bytes_before(xs, ys) {
            let k = choose|k: int|
                0 <= k < ys.len() && k <= xs.len() && #[trigger] xs.take(k) == ys.take(k) && (k
                    == xs.len() || xs[k] < ys[k]);
            if k < i {
                assert(xs[k] == ys[k]);
            } else if k > i {
                assert(xs.take(k)[i as int] == ys.take(k)[i as int]);
            }
            assert(false);
        }
    }
    r
}

/// Where two byte sequences part.
proof fn lemma_part(a: Seq<u8>, b: Seq<u8>, k: int)
    requires
        0 <= k <= a.len(),
        k <= b.len(),
        a.take(k) == b.take(k),
    ensures
        a == b || bytes_before(a, b) || bytes_before(b, a),
    decreases a.len() - k,
{
    if k == a.len() && k == b.len() {
        assert(a.take(k) =~= a);
        assert(b.take(k) =~= b);
    } else if k == a.len() {
        assert(bytes_before(a, b));
    } else if k == b.len() {
        assert(bytes_before(b, a));
    } else if a[k] < b[k] {
        assert(bytes_before(a, b));
    } else if b[k] < a[k] {
        assert(bytes_before(b, a));
    } else {
        assert(a.take(k + 1) =~= a.take(k).push(a[k]));
        assert(b.take(k + 1) =~= b.take(k).push(b[k]));
        lemma_part(a, b, k + 1);
    }
}

/// **Texts are in one order**: of two different texts one sorts before the other.
pub proof fn law_sorts_total(a: Seq<char>, b: Seq<char>)
    requires
        a != b,
    ensures
        sorts_before(a, b) || sorts_before(b, a),
{
    let x = vstd::utf8::encode_utf8(a);
    let y = vstd::utf8::encode_utf8(b);
    vstd::utf8::encode_utf8_decode_utf8(a);
    vstd::utf8::encode_utf8_decode_utf8(b);
    assert(x.take(0) =~= y.take(0));
    lemma_part(x, y, 0);
}

/// No text sorts before itself.
pub proof fn law_sorts_strict(a: Seq<char>)
    ensures
        !sorts_before(a, a),
{
}

/// Texts sort transitively.
pub proof fn law_sorts_transitive(a: Seq<char>, b: Seq<char>, c: Seq<char>)
    requires
        sorts_before(a, b),
        sorts_before(b, c),
    ensures
        sorts_before(a, c),
{
    let x = vstd::utf8::encode_utf8(a);
    let y = vstd::utf8::encode_utf8(b);
    let z = vstd::utf8::encode_utf8(c);
    let i = choose|k: int|
        0 <= k < y.len() && k <= x.len() && #[trigger] x.take(k) == y.take(k) && (k == x.len()
            || x[k] < y[k]);
    let j = choose|k: int|
        0 <= k < z.len() && k <= y.len() && #[trigger] y.take(k) == z.take(k) && (k == y.len()
            || y[k] < z[k]);
    let k = if i < j {
        i
    } else {
        j
    };
    assert(x.take(k) =~= x.take(i).take(k));
    assert(y.take(k) =~= y.take(i).take(k));
    assert(y.take(k) =~= y.take(j).take(k));
    assert(z.take(k) =~= z.take(j).take(k));
    assert(x.take(k) == z.take(k));
    if i < j {
        assert(y.take(j)[i] == z.take(j)[i]);
    } else if j < i {
        assert(x.take(i)[j] == y.take(i)[j]);
    }
    assert(bytes_before(x, z));
}

} // verus!
