//! Durations as whole nanoseconds, read from numbers of seconds.
//!
//! A number is written as floating-point numbers are: an optional `+`,
//! digits with an optional point among them, and an optional exponent
//! of ten. It is read exactly, in integers, and rounded down to whole
//! nanoseconds.

use crate::error::TimingError;
use crate::text::{count_until, lemma_span_until, span_until};
use vstd::arithmetic::div_mod::{
    lemma_basic_div, lemma_div_denominator, lemma_fundamental_div_mod_converse,
};
use vstd::prelude::*;

verus! {

/// How many nanoseconds make a second.
pub const NANOS_PER_SEC: u64 = 1_000_000_000;

/// How many digits after the point a duration keeps.
pub const NANO_DIGITS: usize = 9;

/// The greatest exponent that is read as a number; one that is greater
/// takes every number but zero out of range, or down to zero.
pub const EXPONENT_CAP: u128 = 0x1_0000_0000_0000_0000_0000_0000;

/// Whether `c` is one of the digits `0` to `9`.
pub open spec fn is_digit(c: char) -> bool {
    0x30 <= c as u32 <= 0x39
}

/// The number that the digit `c` stands for.
pub open spec fn digit_value(c: char) -> nat {
    (c as u32 - 0x30) as nat
}

/// Whether `s` holds digits only.
pub open spec fn all_digits(s: Seq<char>) -> bool {
    forall|i: int| 0 <= i < s.len() ==> is_digit(#[trigger] s[i])
}

/// The `n`th power of ten.
pub open spec fn pow10(n: nat) -> nat
    decreases n,
{
    if n == 0 {
        1
    } else {
        10 * pow10((n - 1) as nat)
    }
}

/// The number that the digits of `s` write in base ten.
pub open spec fn digits_value(s: Seq<char>) -> nat
    decreases s.len(),
{
    if s.len() == 0 {
        0
    } else {
        digits_value(s.drop_last()) * 10 + digit_value(s.last())
    }
}

/// `m` times the `k`th power of ten, rounded down.
pub open spec fn scaled(m: nat, k: int) -> nat {
    if k >= 0 {
        m * pow10(k as nat)
    } else {
        m / pow10((-k) as nat)
    }
}

/// `s` without a plus sign in front.
pub open spec fn unsigned(s: Seq<char>) -> Seq<char> {
    if s.len() > 0 && s[0] == '+' {
        s.drop_first()
    } else {
        s
    }
}

/// How many characters of `u` stand before its first `e` or `E`.
pub open spec fn mantissa_len(u: Seq<char>) -> nat {
    if span_until(u, 'e') <= span_until(u, 'E') {
        span_until(u, 'e')
    } else {
        span_until(u, 'E')
    }
}

/// The part of the number `s` before its exponent, without the sign.
pub open spec fn mantissa(s: Seq<char>) -> Seq<char> {
    unsigned(s).take(mantissa_len(unsigned(s)) as int)
}

/// What follows the first `e` or `E` of the number `s`, if it has one.
pub open spec fn exponent_text(s: Seq<char>) -> Option<Seq<char>> {
    let u = unsigned(s);
    let n = mantissa_len(u) as int;
    if n < u.len() {
        Some(u.skip(n + 1))
    } else {
        None
    }
}

/// Whether the exponent `t` is a negative one.
pub open spec fn is_negative(t: Seq<char>) -> bool {
    t.len() > 0 && t[0] == '-'
}

/// The exponent `t` without its sign.
pub open spec fn exponent_digits(t: Seq<char>) -> Seq<char> {
    if t.len() > 0 && (t[0] == '+' || t[0] == '-') {
        t.drop_first()
    } else {
        t
    }
}

/// The exponent of ten that the number `s` is written with; zero where
/// it is written without one.
pub open spec fn exponent(s: Seq<char>) -> int {
    match exponent_text(s) {
        None => 0,
        Some(t) => if is_negative(t) {
            -(digits_value(exponent_digits(t)) as int)
        } else {
            digits_value(exponent_digits(t)) as int
        },
    }
}

/// The digits of the number `s` before its point.
pub open spec fn whole_part(s: Seq<char>) -> Seq<char> {
    mantissa(s).take(span_until(mantissa(s), '.') as int)
}

/// The digits of the number `s` after its point.
pub open spec fn fraction_part(s: Seq<char>) -> Seq<char> {
    let m = mantissa(s);
    let n = span_until(m, '.') as int;
    if n < m.len() {
        m.skip(n + 1)
    } else {
        Seq::empty()
    }
}

/// Whether `s` writes a number that is finite and not negative: an
/// optional `+`; then digits, with at most one point among them, and at
/// least one digit; then, optionally, `e` or `E`, an optional sign, and
/// at least one digit.
pub open spec fn is_decimal(s: Seq<char>) -> bool {
    &&& all_digits(whole_part(s))
    &&& all_digits(fraction_part(s))
    &&& whole_part(s).len() + fraction_part(s).len() > 0
    &&& match exponent_text(s) {
        None => true,
        Some(t) => exponent_digits(t).len() > 0 && all_digits(exponent_digits(t)),
    }
}

/// The seconds that `s` writes, in nanoseconds, rounded down: the
/// number that its digits write, times the power of ten that the place
/// of the point and the exponent give.
pub open spec fn decimal_nanos(s: Seq<char>) -> nat {
    scaled(
        digits_value(whole_part(s) + fraction_part(s)),
        exponent(s) - fraction_part(s).len() + NANO_DIGITS,
    )
}

/// The duration of `v` nanoseconds, where a duration can hold it.
pub open spec fn ranged(v: nat) -> Result<u64, TimingError> {
    if v > u64::MAX {
        Err(TimingError::OutOfRange)
    } else {
        Ok(v as u64)
    }
}

/// What reading `s` as a duration gives.
pub open spec fn parsed(s: Seq<char>) -> Result<u64, TimingError> {
    if !is_decimal(s) {
        Err(TimingError::Malformed)
    } else {
        ranged(decimal_nanos(s))
    }
}

/// A number of `n` digits is below the `n`th power of ten.
pub proof fn lemma_digits_bound(s: Seq<char>)
    requires
        all_digits(s),
    ensures
        digits_value(s) < pow10(s.len()),
    decreases s.len(),
{
    if s.len() > 0 {
        let t = s.drop_last();
        assert forall|i: int| 0 <= i < t.len() implies is_digit(#[trigger] t[i]) by {
            assert(t[i] == s[i]);
        }
        lemma_digits_bound(t);
        assert(is_digit(s.last()));
    }
}

/// The number that a prefix writes is no more than the whole number.
pub proof fn lemma_digits_prefix(s: Seq<char>, i: int)
    requires
        0 <= i <= s.len(),
    ensures
        digits_value(s.take(i)) <= digits_value(s),
    decreases s.len(),
{
    if i < s.len() {
        lemma_digits_prefix(s.drop_last(), i);
        assert(s.drop_last().take(i) =~= s.take(i));
    } else {
        assert(s.take(i) =~= s);
    }
}

/// The powers of ten grow, from one.
pub proof fn lemma_pow10_grows(a: nat, b: nat)
    requires
        a <= b,
    ensures
        1 <= pow10(a) <= pow10(b),
    decreases b,
{
    if b > 0 {
        if a < b {
            lemma_pow10_grows(a, (b - 1) as nat);
        } else {
            lemma_pow10_grows((a - 1) as nat, (b - 1) as nat);
        }
    }
}

/// From the twentieth on, a power of ten is more than a duration holds.
pub proof fn lemma_pow10_twenty(n: nat)
    requires
        n >= 20,
    ensures
        pow10(n) > u64::MAX,
{
    assert(pow10(20) == 100_000_000_000_000_000_000nat) by {
        reveal_with_fuel(pow10, 21);
    }
    lemma_pow10_grows(20, n);
}

/// Dividing a number by the `j`th power of ten drops its last `j`
/// digits.
pub proof fn lemma_drop_digits(d: Seq<char>, j: nat)
    requires
        all_digits(d),
        j <= d.len(),
    ensures
        digits_value(d) / pow10(j) == digits_value(d.take(d.len() - j)),
    decreases j,
{
    if j == 0 {
        assert(d.take(d.len() as int) =~= d);
        assert(pow10(0) == 1);
    } else {
        let d1 = d.drop_last();
        assert forall|i: int| 0 <= i < d1.len() implies is_digit(#[trigger] d1[i]) by {
            assert(d1[i] == d[i]);
        }
        lemma_drop_digits(d1, (j - 1) as nat);
        assert(d1.take(d1.len() - (j - 1)) =~= d.take(d.len() - j));
        let x = digits_value(d) as int;
        let q = digits_value(d1) as int;
        let r = digit_value(d.last()) as int;
        assert(is_digit(d.last()));
        lemma_fundamental_div_mod_converse(x, 10, q, r);
        lemma_pow10_grows(0, (j - 1) as nat);
        lemma_div_denominator(x, 10, pow10((j - 1) as nat) as int);
    }
}

/// A number scaled is the number that its first `c` digits write, where
/// `c` is the place that the scaling gives the point: digits that are
/// missing count as zeros, and where no digit is left it is zero.
pub proof fn lemma_scaled_digits(d: Seq<char>, c: int)
    requires
        all_digits(d),
    ensures
        scaled(digits_value(d), c - d.len()) == if c <= 0 {
            0
        } else if c >= d.len() {
            digits_value(d) * pow10((c - d.len()) as nat)
        } else {
            digits_value(d.take(c))
        },
{
    let m = digits_value(d);
    if c < d.len() {
        let j = (d.len() - c) as nat;
        assert((-(c - d.len())) as nat == j);
        assert(scaled(m, c - d.len()) == m / pow10(j));
        if c <= 0 {
            lemma_digits_bound(d);
            lemma_pow10_grows(d.len(), j);
            lemma_basic_div(m as int, pow10(j) as int);
            assert(scaled(m, c - d.len()) == 0);
        } else {
            lemma_drop_digits(d, j);
            assert(d.len() - j == c);
            assert(scaled(m, c - d.len()) == digits_value(d.take(c)));
        }
    } else if c <= 0 {
        assert(m == 0);
        assert(pow10(0) == 1);
        assert(scaled(m, c - d.len()) == 0);
    } else {
        assert(scaled(m, c - d.len()) == m * pow10((c - d.len()) as nat));
    }
}

fn digit_of(c: char) -> (r: Option<u8>)
    ensures
        match r {
            Some(d) => is_digit(c) && d == digit_value(c),
            None => !is_digit(c),
        },
{
    let u: u32 = c as u32;
    if 0x30 <= u && u <= 0x39 {
        Some((u - 0x30) as u8)
    } else {
        None
    }
}

fn only_digits(s: &[char]) -> (b: bool)
    ensures
        b == all_digits(s@),
{
    let mut i: usize = 0;
    while i < s.len()
        invariant
            i <= s.len(),
            forall|j: int| 0 <= j < i ==> is_digit(#[trigger] s@[j]),
        decreases s.len() - i,
    {
        if digit_of(s[i]).is_none() {
            return false;
        }
        i += 1;
    }
    true
}

/// The number that the digits `before` and then those of `s` write,
/// where a `u64` holds it; `acc` is the number that `before` writes.
fn read_digits(acc: u64, s: &[char], Ghost(before): Ghost<Seq<char>>) -> (r: Option<u64>)
    requires
        all_digits(s@),
        acc == digits_value(before),
    ensures
        match r {
            Some(v) => v == digits_value(before + s@),
            None => digits_value(before + s@) > u64::MAX,
        },
{
    let mut acc: u64 = acc;
    let mut i: usize = 0;
    assert(before + s@.take(0) =~= before);
    while i < s.len()
        invariant
            i <= s.len(),
            all_digits(s@),
            acc == digits_value(before + s@.take(i as int)),
        decreases s.len() - i,
    {
        let d = match digit_of(s[i]) {
            Some(d) => d,
            None => 0,
        };
        proof {
            let next = before + s@.take(i + 1);
            assert(next.drop_last() =~= before + s@.take(i as int));
            assert(next.last() == s@[i as int]);
            assert((before + s@).take(next.len() as int) =~= next);
            lemma_digits_prefix(before + s@, next.len() as int);
        }
        if acc > (u64::MAX - d as u64) / 10 {
            return None;
        }
        acc = acc * 10 + d as u64;
        i += 1;
    }
    assert(s@.take(i as int) =~= s@);
    Some(acc)
}

/// The number that the digits of `s` write, where it is no more than
/// the greatest exponent that is read.
fn read_exponent(s: &[char]) -> (r: Option<u128>)
    requires
        all_digits(s@),
    ensures
        match r {
            Some(v) => v == digits_value(s@) && v <= EXPONENT_CAP,
            None => digits_value(s@) > EXPONENT_CAP,
        },
{
    let mut acc: u128 = 0;
    let mut i: usize = 0;
    assert(s@.take(0) =~= Seq::<char>::empty());
    while i < s.len()
        invariant
            i <= s.len(),
            all_digits(s@),
            acc == digits_value(s@.take(i as int)),
            acc <= EXPONENT_CAP,
        decreases s.len() - i,
    {
        let d = match digit_of(s[i]) {
            Some(d) => d,
            None => 0,
        };
        proof {
            assert(s@.take(i + 1).drop_last() =~= s@.take(i as int));
            assert(s@.take(i + 1).last() == s@[i as int]);
            lemma_digits_prefix(s@, i + 1);
        }
        acc = acc * 10 + d as u128;
        if acc > EXPONENT_CAP {
            return None;
        }
        i += 1;
    }
    assert(s@.take(i as int) =~= s@);
    Some(acc)
}

/// The number that the digits of `whole` and then those of `frac`
/// write, times the power of ten that the exponent and the place of the
/// point give, in nanoseconds and rounded down. The exponent is `exp`;
/// where `exp` is `None` it is beyond the cap, below zero if `negative`.
fn scale(
    whole: &[char],
    frac: &[char],
    exp: Option<i128>,
    negative: bool,
    Ghost(ex): Ghost<int>,
) -> (r: Result<u64, TimingError>)
    requires
        all_digits(whole@),
        all_digits(frac@),
        whole@.len() + frac@.len() <= usize::MAX,
        match exp {
            Some(e) => e == ex && -EXPONENT_CAP <= e <= EXPONENT_CAP,
            None => if negative {
                ex < -EXPONENT_CAP
            } else {
                ex > EXPONENT_CAP
            },
        },
    ensures
        r == ranged(scaled(digits_value(whole@ + frac@), ex - frac@.len() + NANO_DIGITS)),
{
    let ghost d = whole@ + frac@;
    let ghost target = scaled(digits_value(whole@ + frac@), ex - frac@.len() + NANO_DIGITS);
    let wl = whole.len();
    let fl = frac.len();
    let n: i128 = wl as i128 + fl as i128;
    proof {
        assert forall|i: int| 0 <= i < d.len() implies is_digit(#[trigger] d[i]) by {
            if i < whole@.len() {
                assert(d[i] == whole@[i]);
            } else {
                assert(d[i] == frac@[i - whole@.len()]);
            }
        }
        lemma_scaled_digits(d, wl + ex + NANO_DIGITS);
        assert(Seq::<char>::empty() + whole@ =~= whole@);
    }
    let c: i128 = match exp {
        Some(e) => wl as i128 + e + 9,
        None => if negative {
            0
        } else {
            n + 20
        },
    };
    if c <= 0 {
        return Ok(0);
    }
    if c < n {
        let count: usize = c as usize;
        if count <= wl {
            let kept = vstd::slice::slice_subrange(whole, 0, count);
            proof {
                assert(Seq::<char>::empty() + kept@ =~= d.take(c as int));
            }
            return match read_digits(0, kept, Ghost(Seq::empty())) {
                Some(v) => Ok(v),
                None => Err(TimingError::OutOfRange),
            };
        }
        let kept = vstd::slice::slice_subrange(frac, 0, count - wl);
        proof {
            assert(whole@ + kept@ =~= d.take(c as int));
            assert(d.take(c as int).take(wl as int) =~= whole@);
            lemma_digits_prefix(d.take(c as int), wl as int);
        }
        return match read_digits(0, whole, Ghost(Seq::empty())) {
            Some(v) => match read_digits(v, kept, Ghost(whole@)) {
                Some(v) => Ok(v),
                None => Err(TimingError::OutOfRange),
            },
            None => Err(TimingError::OutOfRange),
        };
    }
    let ghost zeros = (wl + ex + NANO_DIGITS - d.len()) as nat;
    proof {
        assert(d.take(wl as int) =~= whole@);
        lemma_digits_prefix(d, wl as int);
        lemma_pow10_grows(0, zeros);
    }
    let v = match read_digits(0, whole, Ghost(Seq::empty())) {
        Some(v) => match read_digits(v, frac, Ghost(whole@)) {
            Some(v) => v,
            None => {
                assert(digits_value(d) * pow10(zeros) > u64::MAX) by (nonlinear_arith)
                    requires
                        digits_value(d) > u64::MAX,
                        pow10(zeros) >= 1,
                ;
                return Err(TimingError::OutOfRange);
            },
        },
        None => {
            assert(digits_value(d) * pow10(zeros) > u64::MAX) by (nonlinear_arith)
                requires
                    digits_value(d) > u64::MAX,
                    pow10(zeros) >= 1,
            ;
            return Err(TimingError::OutOfRange);
        },
    };
    if v == 0 {
        assert(digits_value(d) * pow10(zeros) == 0) by (nonlinear_arith)
            requires
                digits_value(d) == 0,
        ;
        return Ok(0);
    }
    if exp.is_none() {
        proof {
            lemma_pow10_twenty(zeros);
        }
        assert(digits_value(d) * pow10(zeros) > u64::MAX) by (nonlinear_arith)
            requires
                digits_value(d) >= 1,
                pow10(zeros) > u64::MAX,
        ;
        return Err(TimingError::OutOfRange);
    }
    let mut acc: u64 = v;
    let mut z: i128 = c - n;
    assert(z == zeros);
    assert(target == digits_value(d) * pow10(zeros));
    while z > 0
        invariant
            z >= 0,
            acc >= 1,
            acc * pow10(z as nat) == target,
            target == scaled(digits_value(whole@ + frac@), ex - frac@.len() + NANO_DIGITS),
        decreases z,
    {
        proof {
            lemma_pow10_grows(0, (z - 1) as nat);
        }
        if acc > u64::MAX / 10 {
            assert(acc * pow10(z as nat) > u64::MAX) by (nonlinear_arith)
                requires
                    acc > u64::MAX / 10,
                    pow10(z as nat) == 10 * pow10((z - 1) as nat),
                    pow10((z - 1) as nat) >= 1,
            ;
            return Err(TimingError::OutOfRange);
        }
        assert((acc * 10) * pow10((z - 1) as nat) == acc * pow10(z as nat)) by (nonlinear_arith)
            requires
                pow10(z as nat) == 10 * pow10((z - 1) as nat),
        ;
        acc = acc * 10;
        z = z - 1;
    }
    assert(pow10(z as nat) == 1) by {
        assert(z == 0);
    }
    assert(acc == target) by (nonlinear_arith)
        requires
            acc * pow10(z as nat) == target,
            pow10(z as nat) == 1,
    ;
    Ok(acc)
}

/// Reads a number of seconds as nanoseconds.
///
/// It fails with `Malformed` where `s` is no number, or a negative one,
/// and with `OutOfRange` where the number is more than a duration can
/// hold.
pub fn parse_nanos(s: &[char]) -> (r: Result<u64, TimingError>)
    ensures
        r == parsed(s@),
{
    let len = s.len();
    let u = if len > 0 && s[0] == '+' {
        vstd::slice::slice_subrange(s, 1, len)
    } else {
        s
    };
    assert(u@ =~= unsigned(s@));
    let a = count_until(u, 'e');
    let b = count_until(u, 'E');
    proof {
        lemma_span_until(u@, 'e');
        lemma_span_until(u@, 'E');
    }
    let x = if a <= b {
        a
    } else {
        b
    };
    let m = vstd::slice::slice_subrange(u, 0, x);
    assert(m@ =~= mantissa(s@));
    let n = count_until(m, '.');
    proof {
        lemma_span_until(m@, '.');
    }
    let whole = vstd::slice::slice_subrange(m, 0, n);
    let frac = if n < m.len() {
        vstd::slice::slice_subrange(m, n + 1, m.len())
    } else {
        vstd::slice::slice_subrange(m, n, n)
    };
    assert(whole@ =~= whole_part(s@));
    assert(frac@ =~= fraction_part(s@));
    if !only_digits(whole) || !only_digits(frac) || (whole.len() == 0 && frac.len() == 0) {
        return Err(TimingError::Malformed);
    }
    if x == u.len() {
        return scale(whole, frac, Some(0), false, Ghost(0));
    }
    let t = vstd::slice::slice_subrange(u, x + 1, u.len());
    assert(exponent_text(s@) == Some(t@)) by {
        assert(t@ =~= u@.skip(x + 1));
    }
    let negative = t.len() > 0 && t[0] == '-';
    let digits = if t.len() > 0 && (t[0] == '+' || t[0] == '-') {
        vstd::slice::slice_subrange(t, 1, t.len())
    } else {
        t
    };
    assert(digits@ =~= exponent_digits(t@));
    if digits.len() == 0 || !only_digits(digits) {
        return Err(TimingError::Malformed);
    }
    let exp: Option<i128> = match read_exponent(digits) {
        Some(v) => if negative {
            Some(-(v as i128))
        } else {
            Some(v as i128)
        },
        None => None,
    };
    scale(whole, frac, exp, negative, Ghost(exponent(s@)))
}

} // verus!
