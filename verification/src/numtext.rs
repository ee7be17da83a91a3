//! Numbers as text: decimal and hexadecimal digits, written and read.
use crate::text::{chars_of, push_char};
use vstd::prelude::*;

verus! {

/// The character of a digit below 16 (lower-case for 10 to 15).
pub open spec fn digit_char(d: nat) -> char {
    if d < 10 {
        ((48 + d) as u8) as char
    } else {
        ((87 + d) as u8) as char
    }
}

/// The digits of `n` in `base`, most significant first, without leading zeros.
pub open spec fn digits(n: nat, base: nat) -> Seq<char>
    recommends
        2 <= base <= 16,
    decreases n,
{
    if base < 2 || n < base {
        seq![digit_char(n)]
    } else {
        proof {
            assert(n / base < n) by (nonlinear_arith)
                requires
                    n >= base,
                    base >= 2,
            ;
        }
        digits(n / base, base).push(digit_char(n % base))
    }
}

fn digit(d: u64) -> (c: char)
    requires
        d < 16,
    ensures
        c == digit_char(d as nat),
{
    if d < 10 {
        ((48 + d) as u8) as char
    } else {
        ((87 + d) as u8) as char
    }
}

/// Appends the digits of `v` in `base`.
pub fn push_digits(out: &mut String, v: u64, base: u64)
    requires
        2 <= base <= 16,
    ensures
        final(out)@ == old(out)@ + digits(v as nat, base as nat),
    decreases v,
{
    if v >= base {
        assert(v / base < v) by (nonlinear_arith)
            requires
                v >= base,
                base >= 2,
        ;
        push_digits(out, v / base, base);
    } else {
        assert(v % base == v) by (nonlinear_arith)
            requires
                v < base,
        ;
    }
    push_char(out, digit(v % base));
}

/// `v` in decimal, as `to_string` writes it.
pub fn decimal(v: u64) -> (s: String)
    ensures
        s@ == digits(v as nat, 10),
{
    let mut s = String::new();
    push_digits(&mut s, v, 10);
    assert(Seq::<char>::empty() + digits(v as nat, 10) =~= digits(v as nat, 10));
    s
}

/// `0x` and `v` in lower-case hexadecimal, as `format!("0x{v:x}")` writes it.
pub fn hex(v: u64) -> (s: String)
    ensures
        s@ == seq!['0', 'x'] + digits(v as nat, 16),
{
    let mut s = String::new();
    push_char(&mut s, '0');
    push_char(&mut s, 'x');
    push_digits(&mut s, v, 16);
    s
}

/// The value of a digit character in `base`, if it is one.
pub open spec fn digit_value(c: char, base: nat) -> Option<nat> {
    let u = c as u32;
    let v: int = if 48 <= u <= 57 {
        u - 48
    } else if 97 <= u <= 122 {
        u - 87
    } else if 65 <= u <= 90 {
        u - 55
    } else {
        99
    };
    if v < base {
        Some(v as nat)
    } else {
        None
    }
}

pub open spec fn all_digits(s: Seq<char>, base: nat) -> bool {
    forall|i: int| 0 <= i < s.len() ==> (#[trigger] digit_value(s[i], base)) is Some
}

/// The number that the digits `s` write in `base`.
pub open spec fn digits_value(s: Seq<char>, base: nat) -> nat
    decreases s.len(),
{
    if s.len() == 0 {
        0
    } else {
        digits_value(s.drop_last(), base) * base + match digit_value(s.last(), base) {
            Some(d) => d,
            None => 0,
        }
    }
}

/// What `u32::from_str_radix(s, base)` gives: an optional `+`, then at least one
/// digit, with a value that fits 32 bits.
pub open spec fn parse_u32_spec(s: Seq<char>, base: nat) -> Option<u32> {
    let body = if s.len() > 0 && s[0] == '+' {
        s.drop_first()
    } else {
        s
    };
    if body.len() == 0 || !all_digits(body, base) || digits_value(body, base) > u32::MAX {
        None
    } else {
        Some(digits_value(body, base) as u32)
    }
}

fn digit_of(c: char, base: u64) -> (r: Option<u64>)
    requires
        2 <= base <= 36,
    ensures
        r matches Some(d) ==> digit_value(c, base as nat) == Some(d as nat),
        r is None ==> digit_value(c, base as nat) is None,
{
    let u = c as u32;
    let v: u64 = if 48 <= u && u <= 57 {
        (u - 48) as u64
    } else if 97 <= u && u <= 122 {
        (u - 87) as u64
    } else if 65 <= u && u <= 90 {
        (u - 55) as u64
    } else {
        99
    };
    if v < base {
        Some(v)
    } else {
        None
    }
}

proof fn lemma_digits_value_mono(s: Seq<char>, k: int, base: nat)
    requires
        0 <= k <= s.len(),
        base >= 1,
    ensures
        digits_value(s.take(k), base) <= digits_value(s, base),
    decreases s.len(),
{
    if k < s.len() {
        assert(s.drop_last().take(k) =~= s.take(k));
        lemma_digits_value_mono(s.drop_last(), k, base);
        let p = digits_value(s.drop_last(), base);
        assert(p * base >= p) by (nonlinear_arith)
            requires
                base >= 1,
        ;
    } else {
        assert(s.take(k) =~= s);
    }
}

/// Reads an unsigned 32-bit number in `base` (see `parse_u32_spec`).
pub fn parse_u32(s: &str, base: u64) -> (r: Option<u32>)
    requires
        2 <= base <= 16,
    ensures
        r == parse_u32_spec(s@, base as nat),
{
    let v = chars_of(s);
    let mut i: usize = 0;
    if v.len() > 0 && v[0] == '+' {
        i = 1;
    }
    let start = i;
    let ghost body = if s@.len() > 0 && s@[0] == '+' {
        s@.drop_first()
    } else {
        s@
    };
    assert(body =~= v@.skip(start as int));
    if start >= v.len() {
        return None;
    }
    let mut acc: u64 = 0;
    while i < v.len()
        invariant
            v@ == s@,
            2 <= base <= 16,
            start <= i <= v@.len(),
            body == v@.skip(start as int),
            body == (if s@.len() > 0 && s@[0] == '+' {
                s@.drop_first()
            } else {
                s@
            }),
            body.len() > 0,
            acc as nat == digits_value(v@.subrange(start as int, i as int), base as nat),
            acc <= u32::MAX,
            all_digits(v@.subrange(start as int, i as int), base as nat),
        decreases v@.len() - i,
    {
        let d = match digit_of(v[i], base) {
            Some(d) => d,
            None => {
                assert(!all_digits(body, base as nat)) by {
                    assert(body[i - start] == v@[i as int]);
                    assert(digit_value(body[i - start], base as nat) is None);
                }
                return None;
            },
        };
        let ghost prefix = v@.subrange(start as int, i + 1);
        assert(prefix.drop_last() =~= v@.subrange(start as int, i as int));
        assert(prefix.last() == v@[i as int]);
        assert(acc * base + d <= u32::MAX * 16 + 15) by (nonlinear_arith)
            requires
                acc <= u32::MAX,
                base <= 16,
                d < 16,
        ;
        let next = acc * base + d;
        assert(all_digits(prefix, base as nat)) by {
            assert forall|j: int| 0 <= j < prefix.len() implies (#[trigger] digit_value(
                prefix[j],
                base as nat,
            )) is Some by {
                if j < prefix.len() - 1 {
                    assert(prefix[j] == v@.subrange(start as int, i as int)[j]);
                }
            }
        }
        assert(digits_value(prefix, base as nat) == next) by {
            assert(digit_value(prefix.last(), base as nat) == Some(d as nat));
        }
        if next > 0xffff_ffff {
            proof {
                assert(prefix =~= body.take(i + 1 - start));
                lemma_digits_value_mono(body, i + 1 - start, base as nat);
            }
            return None;
        }
        acc = next;
        i = i + 1;
    }
    assert(v@.subrange(start as int, v@.len() as int) =~= body);
    Some(acc as u32)
}

} // verus!

verus! {

/// Every character of a number's digits is a digit of its base.
pub proof fn lemma_digits_parse(n: nat, base: nat)
    requires
        2 <= base <= 16,
    ensures
        all_digits(digits(n, base), base),
        digits_value(digits(n, base), base) == n,
        digits(n, base).len() >= 1,
        digits(n, base)[0] != '+',
        forall|i: int| 0 <= i < digits(n, base).len() ==> #[trigger] digits(n, base)[i] != 'x',
        n <= u32::MAX ==> parse_u32_spec(digits(n, base), base) == Some(n as u32),
    decreases n,
{
    if n >= base {
        assert(n / base < n) by (nonlinear_arith)
            requires
                n >= base,
                base >= 2,
        ;
        assert(n % base < base) by (nonlinear_arith)
            requires
                base >= 2,
        ;
        lemma_digits_parse(n / base, base);
        let prev = digits(n / base, base);
        let d = n % base;
        let s = prev.push(digit_char(d));
        assert(digits(n, base) == s);
        assert(s.drop_last() =~= prev);
        assert(s.last() == digit_char(d));
        assert(digit_value(digit_char(d), base) == Some(d));
        assert(digits_value(s, base) == digits_value(prev, base) * base + d);
        assert((n / base) * base + n % base == n) by (nonlinear_arith)
            requires
                base >= 2,
        ;
        assert forall|i: int| 0 <= i < s.len() implies (#[trigger] digit_value(s[i], base)) is Some
            && s[i] != 'x' by {
            if i < prev.len() {
                assert(s[i] == prev[i]);
            }
        }
        assert(s[0] == prev[0]);
    } else {
        let s = digits(n, base);
        assert(s == seq![digit_char(n)]);
        assert(s.drop_last() =~= Seq::<char>::empty());
        assert(s.last() == digit_char(n));
        assert(digits_value(s.drop_last(), base) == 0);
        assert(digit_value(digit_char(n), base) == Some(n));
        assert(digits_value(s, base) == n);
    }
}

} // verus!
