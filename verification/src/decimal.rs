//! Numbers read from texts.

use crate::text::{decimal_digits, digit};
use vstd::prelude::*;
use vstd::string::StrSliceExecFns;

verus! {

/// The value of a decimal digit.
pub open spec fn digit_value(c: char) -> Option<nat> {
    if '0' <= c && c <= '9' {
        Some((c as u32 - '0' as u32) as nat)
    } else {
        None
    }
}

/// The number that the digits of `s` stand for; zero for an empty text.
pub open spec fn digits_value(s: Seq<char>) -> Option<nat>
    decreases s.len(),
{
    if s.len() == 0 {
        Some(0)
    } else {
        match (digits_value(s.drop_last()), digit_value(s.last())) {
            (Some(v), Some(d)) => Some(10 * v + d),
            _ => None,
        }
    }
}

/// The number of at least one digit, where it is at most `max`.
pub open spec fn magnitude_of(s: Seq<char>, max: nat) -> Option<nat> {
    match digits_value(s) {
        Some(v) if s.len() > 0 && v <= max => Some(v),
        _ => None,
    }
}

/// The number without a sign that `s` stands for, where it is at most `max`. A plus may lead.
pub open spec fn unsigned_of(s: Seq<char>, max: nat) -> Option<nat> {
    if s.len() > 0 && s[0] == '+' {
        magnitude_of(s.drop_first(), max)
    } else {
        magnitude_of(s, max)
    }
}

/// The number that `s` stands for, where it fits 64 bits. A sign may lead.
pub open spec fn signed_of(s: Seq<char>) -> Option<int> {
    if s.len() > 0 && s[0] == '-' {
        match magnitude_of(s.drop_first(), 0x8000_0000_0000_0000) {
            Some(v) => Some(-(v as int)),
            None => None,
        }
    } else {
        match unsigned_of(s, 0x7fff_ffff_ffff_ffff) {
            Some(v) => Some(v as int),
            None => None,
        }
    }
}

proof fn lemma_digits_grow(s: Seq<char>, a: int, b: int)
    requires
        0 <= a <= b <= s.len(),
    ensures
        match (digits_value(s.take(a)), digits_value(s.take(b))) {
            (Some(x), Some(y)) => x <= y,
            (None, y) => y is None,
            _ => true,
        },
    decreases b - a,
{
    if a < b {
        lemma_digits_grow(s, a, b - 1);
        assert(s.take(b).drop_last() =~= s.take(b - 1));
    }
}

fn magnitude(s: &str, max: u64) -> (r: Option<u64>)
    ensures
        match r {
            Some(v) => magnitude_of(s@, max as nat) == Some(v as nat),
            None => magnitude_of(s@, max as nat) is None,
        },
{
    let n: usize = s.unicode_len();
    if n == 0 {
        return None;
    }
    let mut v: u64 = 0;
    let mut i: usize = 0;
    assert(s@.take(0) =~= Seq::empty());
    while i < n
        invariant
            i <= n,
            n == s@.len(),
            digits_value(s@.take(i as int)) == Some(v as nat),
            v <= max,
        decreases n - i,
    {
        let c: char = s.get_char(i);
        proof {
            assert(s@.take(i + 1).drop_last() =~= s@.take(i as int));
            assert(s@.take(i + 1).last() == c);
            lemma_digits_grow(s@, i + 1, n as int);
            assert(s@.take(n as int) =~= s@);
        }
        if c < '0' || c > '9' {
            return None;
        }
        let d: u64 = (c as u32 - '0' as u32) as u64;
        let next: u64 = match v.checked_mul(10) {
            Some(t) => match t.checked_add(d) {
                Some(t) => t,
                None => {
                    return None;
                },
            },
            None => {
                return None;
            },
        };
        if next > max {
            return None;
        }
        v = next;
        i += 1;
    }
    assert(s@.take(n as int) =~= s@);
    Some(v)
}

/// The number without a sign that `s` stands for, where it is at most `max`.
pub fn parse_unsigned(s: &str, max: u64) -> (r: Option<u64>)
    ensures
        match r {
            Some(v) => unsigned_of(s@, max as nat) == Some(v as nat),
            None => unsigned_of(s@, max as nat) is None,
        },
{
    let n: usize = s.unicode_len();
    if n > 0 && s.get_char(0) == '+' {
        let rest = s.substring_char(1, n);
        assert(rest@ =~= s@.drop_first());
        magnitude(rest, max)
    } else {
        magnitude(s, max)
    }
}

/// The number that `s` stands for, where it fits 64 bits.
pub fn parse_signed(s: &str) -> (r: Option<i64>)
    ensures
        match r {
            Some(v) => signed_of(s@) == Some(v as int),
            None => signed_of(s@) is None,
        },
{
    let n: usize = s.unicode_len();
    if n > 0 && s.get_char(0) == '-' {
        let rest = s.substring_char(1, n);
        assert(rest@ =~= s@.drop_first());
        match magnitude(rest, 0x8000_0000_0000_0000) {
            None => None,
            Some(v) => if v == 0x8000_0000_0000_0000 {
                Some(i64::MIN)
            } else {
                Some(-(v as i64))
            },
        }
    } else {
        match parse_unsigned(s, 0x7fff_ffff_ffff_ffff) {
            Some(v) => Some(v as i64),
            None => None,
        }
    }
}

/// **Numbers that are written are read back**: the digits of a number stand for it.
pub proof fn law_decimal_is_read(n: nat)
    ensures
        digits_value(decimal_digits(n)) == Some(n),
        decimal_digits(n).len() > 0,
    decreases n,
{
    reveal_strlit("0");
    reveal_strlit("1");
    reveal_strlit("2");
    reveal_strlit("3");
    reveal_strlit("4");
    reveal_strlit("5");
    reveal_strlit("6");
    reveal_strlit("7");
    reveal_strlit("8");
    reveal_strlit("9");
    let s = decimal_digits(n);
    if n < 10 {
        assert(s.drop_last() =~= Seq::empty());
        reveal_with_fuel(digits_value, 2);
    } else {
        law_decimal_is_read(n / 10);
        let d = digit((n % 10) as int);
        assert(d.len() == 1);
        assert(s.drop_last() =~= decimal_digits(n / 10));
        assert(s.last() == d[0]);
        assert(digit_value(d[0]) == Some((n % 10) as nat));
    }
}

} // verus!
