//! Numbers in a trailer: decimal sizes and checksums, octal modes.
use vstd::prelude::*;

use crate::bytes::{rest, ZERO};

verus! {

/// Whether `c` is a digit of the given base.
pub open spec fn is_digit(c: u8, base: nat) -> bool {
    ZERO <= c < ZERO + base
}

/// How many digits `s` starts with.
pub open spec fn digit_count(s: Seq<u8>, base: nat) -> nat
    decreases s.len(),
{
    if s.len() > 0 && is_digit(s[0], base) {
        1 + digit_count(s.drop_first(), base)
    } else {
        0
    }
}

/// The number that a string of digits stands for.
pub open spec fn digits_value(s: Seq<u8>, base: nat) -> nat
    decreases s.len(),
{
    if s.len() == 0 {
        0
    } else {
        (digits_value(s.drop_last(), base) * base + (s.last() - ZERO)) as nat
    }
}

/// The number that `s` starts with; 0 where it starts with no digit.
pub open spec fn leading_number(s: Seq<u8>, base: nat) -> nat {
    digits_value(s.take(digit_count(s, base) as int), base)
}

/// The digits of `n`, without leading zeros.
pub open spec fn digits(n: nat, base: nat) -> Seq<u8>
    decreases n,
{
    if base < 2 {
        Seq::empty()
    } else if n < base {
        seq![(ZERO + n) as u8]
    } else {
        proof {
            vstd::arithmetic::div_mod::lemma_div_decreases(n as int, base as int);
        }
        digits(n / base, base).push((ZERO + n % base) as u8)
    }
}

/// The digits counted are digits, and no digit follows them.
pub proof fn lemma_digit_count(s: Seq<u8>, base: nat)
    ensures
        digit_count(s, base) <= s.len(),
        forall|i: int| 0 <= i < digit_count(s, base) ==> is_digit(#[trigger] s[i], base),
        digit_count(s, base) < s.len() ==> !is_digit(s[digit_count(s, base) as int], base),
    decreases s.len(),
{
    if s.len() > 0 && is_digit(s[0], base) {
        let t = s.drop_first();
        lemma_digit_count(t, base);
        assert forall|i: int| 0 <= i < digit_count(s, base) implies is_digit(
            #[trigger] s[i],
            base,
        ) by {
            if i > 0 {
                assert(s[i] == t[i - 1]);
            }
        }
        if digit_count(s, base) < s.len() {
            assert(s[digit_count(s, base) as int] == t[digit_count(t, base) as int]);
        }
    }
}

/// A run of digits that ends at the end of `s` or before something else.
proof fn lemma_digit_count_is(s: Seq<u8>, base: nat, n: int)
    requires
        0 <= n <= s.len(),
        forall|i: int| 0 <= i < n ==> is_digit(#[trigger] s[i], base),
        n < s.len() ==> !is_digit(s[n], base),
    ensures
        digit_count(s, base) == n,
    decreases n,
{
    if n > 0 {
        let t = s.drop_first();
        assert forall|i: int| 0 <= i < n - 1 implies is_digit(#[trigger] t[i], base) by {
            assert(t[i] == s[i + 1]);
        }
        assert(is_digit(s[0], base));
        lemma_digit_count_is(t, base, n - 1);
    }
}

/// More digits never make a smaller number.
proof fn lemma_prefix_value(s: Seq<u8>, base: nat, k: int)
    requires
        base >= 1,
        0 <= k <= s.len(),
        forall|i: int| 0 <= i < s.len() ==> is_digit(#[trigger] s[i], base),
    ensures
        digits_value(s.take(k), base) <= digits_value(s, base),
    decreases s.len() - k,
{
    if k == s.len() {
        assert(s.take(k) =~= s);
    } else {
        let t = s.take(k + 1);
        assert(t.drop_last() =~= s.take(k));
        assert(is_digit(s[k], base));
        let v = digits_value(s.take(k), base);
        assert(v <= v * base) by (nonlinear_arith)
            requires
                base >= 1,
        ;
        lemma_prefix_value(s, base, k + 1);
    }
}

/// The number that stands in `dict` at `start`, and the position after it;
/// `None` where it is greater than `max`.
fn number_at(dict: &[u8], start: usize, base: u64, max: u64) -> (found: Option<(u64, usize)>)
    requires
        2 <= base <= 10,
    ensures
        ({
            let s = rest(dict@, start as int);
            match found {
                Some((v, end)) => {
                    &&& v == leading_number(s, base as nat)
                    &&& v <= max
                    &&& end == start + digit_count(s, base as nat)
                },
                None => leading_number(s, base as nat) > max,
            }
        }),
{
    let ghost s = rest(dict@, start as int);
    let ghost b = base as nat;
    let ghost n = digit_count(s, b);
    proof {
        lemma_digit_count(s, b);
    }
    let mut i: usize = start;
    let mut value: u64 = 0;
    assert(s.take(0) =~= Seq::<u8>::empty());
    while i < dict.len()
        invariant
            2 <= base <= 10,
            b == base as nat,
            s == rest(dict@, start as int),
            n == digit_count(s, b),
            n <= s.len(),
            forall|k: int| 0 <= k < n ==> is_digit(#[trigger] s[k], b),
            n < s.len() ==> !is_digit(s[n as int], b),
            start <= i,
            i - start <= n,
            value == digits_value(s.take(i - start), b),
            value <= max,
        ensures
            i - start == n,
        decreases dict@.len() - i,
    {
        let ghost k = i - start;
        let c: u8 = dict[i];
        assert(s[k] == c);
        if c < ZERO || (c - ZERO) as u64 >= base {
            break;
        }
        let digit: u64 = (c - ZERO) as u64;
        assert(s.take(k + 1).drop_last() =~= s.take(k));
        assert(s.take(k + 1).last() == s[k]);
        let ghost next = digits_value(s.take(k + 1), b);
        assert(next == value * base + digit);
        let grown: Option<u64> = match value.checked_mul(base) {
            Some(scaled) => scaled.checked_add(digit),
            None => None,
        };
        proof {
            if next > max {
                let run = s.take(n as int);
                assert(run.take(k + 1) =~= s.take(k + 1));
                assert forall|j: int| 0 <= j < run.len() implies is_digit(#[trigger] run[j], b) by {
                    assert(run[j] == s[j]);
                }
                lemma_prefix_value(run, b, k + 1);
            }
        }
        match grown {
            Some(v) if v <= max => {
                value = v;
            },
            _ => {
                return None;
            },
        }
        i += 1;
    }
    Some((value, i))
}

/// Reads the digits of `dict` at `index`. Gives their value and moves `index`
/// past them; gives `None`, and leaves `index` alone, where the value is
/// greater than `max`.
pub fn read_number(index: &mut usize, dict: &[u8], base: u64, max: u64) -> (value: Option<u64>)
    requires
        2 <= base <= 10,
    ensures
        ({
            let s = rest(dict@, *old(index) as int);
            match value {
                Some(v) => {
                    &&& v == leading_number(s, base as nat)
                    &&& v <= max
                    &&& *final(index) == *old(index) + digit_count(s, base as nat)
                },
                None => {
                    &&& leading_number(s, base as nat) > max
                    &&& *final(index) == *old(index)
                },
            }
        }),
{
    match number_at(dict, *index, base, max) {
        Some((value, end)) => {
            *index = end;
            Some(value)
        },
        None => None,
    }
}

/// Reads the next decimal `u64`.
pub fn parse_u64(index: &mut usize, dict: &[u8]) -> (value: u64)
    requires
        leading_number(rest(dict@, *old(index) as int), 10) <= u64::MAX,
    ensures
        value == leading_number(rest(dict@, *old(index) as int), 10),
        *final(index) == *old(index) + digit_count(rest(dict@, *old(index) as int), 10),
{
    read_number(index, dict, 10, u64::MAX).unwrap()
}

/// Reads the next decimal `u32`.
pub fn parse_u32(index: &mut usize, dict: &[u8]) -> (value: u32)
    requires
        leading_number(rest(dict@, *old(index) as int), 10) <= u32::MAX,
    ensures
        value == leading_number(rest(dict@, *old(index) as int), 10),
        *final(index) == *old(index) + digit_count(rest(dict@, *old(index) as int), 10),
{
    read_number(index, dict, 10, u32::MAX as u64).unwrap() as u32
}

/// Reads the next file mode, an octal `u32`.
pub fn parse_mode(index: &mut usize, dict: &[u8]) -> (value: u32)
    requires
        leading_number(rest(dict@, *old(index) as int), 8) <= u32::MAX,
    ensures
        value == leading_number(rest(dict@, *old(index) as int), 8),
        *final(index) == *old(index) + digit_count(rest(dict@, *old(index) as int), 8),
{
    read_number(index, dict, 8, u32::MAX as u64).unwrap() as u32
}

/// Appends the digits of `n` to `out`.
pub fn push_number(out: &mut Vec<u8>, n: u64, base: u64)
    requires
        2 <= base <= 10,
    ensures
        final(out)@ == old(out)@ + digits(n as nat, base as nat),
    decreases n,
{
    if n >= base {
        proof {
            vstd::arithmetic::div_mod::lemma_div_decreases(n as int, base as int);
        }
        push_number(out, n / base, base);
    }
    proof {
        vstd::arithmetic::div_mod::lemma_mod_bound(n as int, base as int);
        if n < base {
            vstd::arithmetic::div_mod::lemma_small_mod(n as nat, base as nat);
        }
    }
    out.push(ZERO + (n % base) as u8);
}

/// A number that starts with some digits, where no digit follows them, is made
/// of these.
pub proof fn lemma_leading_digits(d: Seq<u8>, base: nat, after: Seq<u8>)
    requires
        forall|i: int| 0 <= i < d.len() ==> is_digit(#[trigger] d[i], base),
        after.len() > 0 ==> !is_digit(after[0], base),
    ensures
        digit_count(d + after, base) == d.len(),
        leading_number(d + after, base) == digits_value(d, base),
{
    let s = d + after;
    assert forall|i: int| 0 <= i < d.len() implies is_digit(#[trigger] s[i], base) by {
        assert(s[i] == d[i]);
    }
    if after.len() > 0 {
        assert(s[d.len() as int] == after[0]);
    }
    lemma_digit_count_is(s, base, d.len() as int);
    assert(s.take(d.len() as int) =~= d);
}

/// A number reads back from its digits, whatever else follows them.
pub proof fn law_number_reads_back(n: nat, base: nat, after: Seq<u8>)
    requires
        2 <= base <= 10,
        after.len() > 0 ==> !is_digit(after[0], base),
    ensures
        digit_count(digits(n, base) + after, base) == digits(n, base).len(),
        leading_number(digits(n, base) + after, base) == n,
{
    lemma_digits(n, base);
    lemma_leading_digits(digits(n, base), base, after);
}

/// The digits of a number are digits, and stand for it.
pub proof fn lemma_digits(n: nat, base: nat)
    requires
        2 <= base <= 10,
    ensures
        digits_value(digits(n, base), base) == n,
        digits(n, base).len() >= 1,
        forall|i: int|
            0 <= i < digits(n, base).len() ==> is_digit(#[trigger] digits(n, base)[i], base),
    decreases n,
{
    let d = digits(n, base);
    if n < base {
        assert(d.drop_last() =~= Seq::<u8>::empty());
        assert(digits_value(d.drop_last(), base) == 0);
        assert(0 * base == 0) by (nonlinear_arith);
    } else {
        vstd::arithmetic::div_mod::lemma_div_decreases(n as int, base as int);
        vstd::arithmetic::div_mod::lemma_mod_bound(n as int, base as int);
        lemma_digits(n / base, base);
        assert(d.drop_last() =~= digits(n / base, base));
        vstd::arithmetic::div_mod::lemma_fundamental_div_mod(n as int, base as int);
        assert((n / base) * base == base * (n / base)) by (nonlinear_arith);
    }
}

} // verus!
