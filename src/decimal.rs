//! Decimal text of durations: whole seconds, and a fraction of at most nine digits.

use vstd::prelude::*;

verus! {

/// The character of a decimal digit.
pub open spec fn digit_char(d: nat) -> char
    recommends
        d < 10,
{
    ((d + 48) as u8) as char
}

/// The value of a character that is a decimal digit.
pub open spec fn digit_value(c: char) -> int {
    c as int - 48
}

pub open spec fn is_digit(c: char) -> bool {
    48 <= c as int <= 57
}

pub open spec fn all_digits(t: Seq<char>) -> bool {
    forall|i: int| 0 <= i < t.len() ==> is_digit(#[trigger] t[i])
}

pub open spec fn pow10(e: nat) -> nat
    decreases e,
{
    if e == 0 {
        1
    } else {
        10 * pow10((e - 1) as nat)
    }
}

/// Shortest decimal text of `n`.
pub open spec fn decimal(n: nat) -> Seq<char>
    decreases n,
{
    if n < 10 {
        seq![digit_char(n)]
    } else {
        decimal(n / 10).push(digit_char(n % 10))
    }
}

/// The last `w` decimal digits of `n`, with leading zeros.
pub open spec fn padded(n: nat, w: nat) -> Seq<char>
    decreases w,
{
    if w == 0 {
        Seq::empty()
    } else {
        padded(n / 10, (w - 1) as nat).push(digit_char(n % 10))
    }
}

/// The digits of the fraction `n / 10^w` after the point, trailing zeros left out.
pub open spec fn fraction_digits(n: nat, w: nat) -> Seq<char>
    decreases w,
{
    if w > 0 && n > 0 && n % 10 == 0 {
        fraction_digits(n / 10, (w - 1) as nat)
    } else {
        padded(n, w)
    }
}

/// The value of a text of decimal digits.
pub open spec fn digits_value(t: Seq<char>) -> int
    decreases t.len(),
{
    if t.len() == 0 {
        0
    } else {
        digits_value(t.drop_last()) * 10 + digit_value(t.last())
    }
}

/// Text of a duration in seconds: the whole seconds, then a point and the fraction
/// where the fraction is not zero.
pub open spec fn seconds_text(secs: nat, nanos: nat) -> Seq<char> {
    if nanos == 0 {
        decimal(secs)
    } else {
        decimal(secs) + seq!['.'] + fraction_digits(nanos, 9)
    }
}

/// The number of nanoseconds that a text `W` or `W.F` of decimal digits stands for,
/// read as seconds.
pub open spec fn seconds_text_nanos(t: Seq<char>) -> int {
    if t.contains('.') {
        let i = t.index_of('.');
        let f = t.subrange(i + 1, t.len() as int);
        digits_value(t.subrange(0, i)) * 1_000_000_000 + digits_value(f) * pow10(
            (9 - f.len()) as nat,
        )
    } else {
        digits_value(t) * 1_000_000_000
    }
}

proof fn lemma_digit_char(d: nat)
    requires
        d < 10,
    ensures
        is_digit(digit_char(d)),
        digit_value(digit_char(d)) == d,
{
}

proof fn lemma_pow10_positive(e: nat)
    ensures
        pow10(e) >= 1,
    decreases e,
{
    if e > 0 {
        lemma_pow10_positive((e - 1) as nat);
    }
}

proof fn lemma_push_digits(t: Seq<char>, c: char)
    requires
        all_digits(t),
        is_digit(c),
    ensures
        all_digits(t.push(c)),
        digits_value(t.push(c)) == digits_value(t) * 10 + digit_value(c),
{
    assert(t.push(c).drop_last() =~= t);
}

/// The shortest decimal text of a number is made of digits and reads back as it.
pub proof fn lemma_decimal(n: nat)
    ensures
        all_digits(decimal(n)),
        decimal(n).len() >= 1,
        digits_value(decimal(n)) == n,
    decreases n,
{
    if n < 10 {
        lemma_digit_char(n);
        lemma_push_digits(Seq::empty(), digit_char(n));
        assert(seq![digit_char(n)] =~= Seq::<char>::empty().push(digit_char(n)));
    } else {
        lemma_decimal(n / 10);
        lemma_digit_char(n % 10);
        lemma_push_digits(decimal(n / 10), digit_char(n % 10));
    }
}

proof fn lemma_padded(n: nat, w: nat)
    ensures
        all_digits(padded(n, w)),
        padded(n, w).len() == w,
        digits_value(padded(n, w)) == n % pow10(w),
    decreases w,
{
    if w > 0 {
        let m = pow10((w - 1) as nat);
        lemma_padded(n / 10, (w - 1) as nat);
        lemma_digit_char(n % 10);
        lemma_push_digits(padded(n / 10, (w - 1) as nat), digit_char(n % 10));
        lemma_pow10_positive((w - 1) as nat);
        assert(n % (10 * m) == 10 * ((n / 10) % m) + n % 10) by {
            vstd::arithmetic::div_mod::lemma_breakdown(n as int, 10, m as int);
        }
    }
}

/// The fraction digits are digits, at least one and at most `w`, and read back as `n`.
pub proof fn lemma_fraction_digits(n: nat, w: nat)
    requires
        0 < n < pow10(w),
    ensures
        all_digits(fraction_digits(n, w)),
        1 <= fraction_digits(n, w).len() <= w,
        digits_value(fraction_digits(n, w)) * pow10((w - fraction_digits(n, w).len()) as nat)
            == n,
    decreases w,
{
    lemma_padded(n, w);
    if w > 0 && n > 0 && n % 10 == 0 {
        let f = fraction_digits(n / 10, (w - 1) as nat);
        assert(n / 10 < pow10((w - 1) as nat));
        assert(n / 10 > 0);
        lemma_fraction_digits(n / 10, (w - 1) as nat);
        assert((w - f.len()) as nat == ((w - 1 - f.len()) as nat + 1) as nat);
        assert(pow10((w - f.len()) as nat) == 10 * pow10((w - 1 - f.len()) as nat));
        assert(digits_value(f) * (10 * pow10((w - 1 - f.len()) as nat)) == 10 * (
        digits_value(f) * pow10((w - 1 - f.len()) as nat))) by (nonlinear_arith);
        assert(n == 10 * (n / 10));
        assert(fraction_digits(n, w) == f);
        let p = pow10((w - 1 - f.len()) as nat);
        let v = digits_value(f);
        assert(v * pow10((w - f.len()) as nat) == v * (10 * p));
        assert(v * pow10((w - f.len()) as nat) == n);
    } else {
        if w == 0 {
            assert(false);
        }
        assert(n % pow10(w) == n) by {
            vstd::arithmetic::div_mod::lemma_small_mod(n, pow10(w));
        }
        assert(fraction_digits(n, w) == padded(n, w));
        assert(pow10(0) == 1);
        assert(digits_value(padded(n, w)) == n);
        assert(digits_value(padded(n, w)) * pow10(0) == n);
    }
}

/// The text of a duration reads back as exactly that duration, in nanoseconds.
pub proof fn lemma_seconds_text_round_trip(secs: nat, nanos: nat)
    requires
        nanos < 1_000_000_000,
    ensures
        seconds_text_nanos(seconds_text(secs, nanos)) == secs * 1_000_000_000 + nanos,
{
    let d = decimal(secs);
    lemma_decimal(secs);
    if nanos == 0 {
        assert(!d.contains('.')) by {
            if d.contains('.') {
                let i = d.index_of('.');
                assert(is_digit(d[i]));
            }
        }
    } else {
        assert(pow10(9) == 1_000_000_000) by {
            reveal_with_fuel(pow10, 10);
        }
        lemma_fraction_digits(nanos, 9);
        let f = fraction_digits(nanos, 9);
        let t = d + seq!['.'] + f;
        assert(t[d.len() as int] == '.');
        assert(t.contains('.'));
        let i = t.index_of('.');
        if i < d.len() {
            assert(t[i] == d[i]);
            assert(is_digit(d[i]));
        } else if i > d.len() {
            assert(t[i] == f[i - d.len() - 1]);
            assert(is_digit(f[i - d.len() - 1]));
        }
        assert(i == d.len());
        assert(t.subrange(0, i) =~= d);
        assert(t.subrange(i + 1, t.len() as int) =~= f);
    }
}

/// A longer duration never reads as a smaller number of seconds than a shorter one.
pub proof fn lemma_seconds_text_monotonic(secs1: nat, nanos1: nat, secs2: nat, nanos2: nat)
    requires
        nanos1 < 1_000_000_000,
        nanos2 < 1_000_000_000,
        secs1 * 1_000_000_000 + nanos1 <= secs2 * 1_000_000_000 + nanos2,
    ensures
        seconds_text_nanos(seconds_text(secs1, nanos1)) <= seconds_text_nanos(
            seconds_text(secs2, nanos2),
        ),
{
    lemma_seconds_text_round_trip(secs1, nanos1);
    lemma_seconds_text_round_trip(secs2, nanos2);
}

fn digit(d: u64) -> (c: char)
    requires
        d < 10,
    ensures
        c == digit_char(d as nat),
{
    ((d as u8) + 48) as char
}

/// Appends each character of `chars` to `out`.
pub fn push_chars(out: &mut String, chars: &Vec<char>)
    ensures
        final(out)@ == old(out)@ + chars@,
{
    let mut i: usize = 0;
    while i < chars.len()
        invariant
            i <= chars@.len(),
            out@ == old(out)@ + chars@.subrange(0, i as int),
        decreases chars@.len() - i,
    {
        out.push(chars[i]);
        i = i + 1;
        assert(chars@.subrange(0, i as int) =~= chars@.subrange(0, i - 1).push(chars@[i - 1]));
    }
    assert(chars@.subrange(0, i as int) =~= chars@);
}

/// Appends the shortest decimal text of `n` to `out`.
pub fn push_decimal(out: &mut String, n: u64)
    ensures
        final(out)@ == old(out)@ + decimal(n as nat),
{
    let mut digits: Vec<char> = Vec::new();
    let mut m: u64 = n;
    while m >= 10
        invariant
            decimal(n as nat) == decimal(m as nat) + digits@,
        decreases m,
    {
        let ghost before = digits@;
        digits.insert(0, digit(m % 10));
        assert(decimal(m as nat) + before =~= decimal((m / 10) as nat) + digits@);
        m = m / 10;
    }
    let ghost before = digits@;
    digits.insert(0, digit(m));
    assert(decimal(m as nat) + before =~= digits@);
    push_chars(out, &digits);
}

/// Appends the last `w` decimal digits of `n` to `out`, with leading zeros.
fn push_padded(out: &mut String, n: u64, w: u64)
    ensures
        final(out)@ == old(out)@ + padded(n as nat, w as nat),
{
    let mut digits: Vec<char> = Vec::new();
    let mut m: u64 = n;
    let mut k: u64 = w;
    while k > 0
        invariant
            padded(n as nat, w as nat) == padded(m as nat, k as nat) + digits@,
        decreases k,
    {
        let ghost before = digits@;
        digits.insert(0, digit(m % 10));
        assert(padded(m as nat, k as nat) + before =~= padded((m / 10) as nat, (k - 1) as nat)
            + digits@);
        m = m / 10;
        k = k - 1;
    }
    assert(padded(n as nat, w as nat) =~= digits@);
    push_chars(out, &digits);
}

/// Appends the digits of the fraction `nanos / 10^9` to `out`, trailing zeros left out.
pub fn push_fraction(out: &mut String, nanos: u32)
    requires
        0 < nanos < 1_000_000_000,
    ensures
        final(out)@ == old(out)@ + fraction_digits(nanos as nat, 9),
{
    let mut n: u64 = nanos as u64;
    let mut w: u64 = 9;
    assert(pow10(9) == 1_000_000_000) by {
        reveal_with_fuel(pow10, 10);
    }
    while n % 10 == 0
        invariant
            0 < n < pow10(w as nat),
            w <= 9,
            fraction_digits(nanos as nat, 9) == fraction_digits(n as nat, w as nat),
        decreases w,
    {
        if w == 0 {
            assert(pow10(0) == 1);
            assert(false);
        }
        assert(pow10(w as nat) == 10 * pow10((w - 1) as nat));
        n = n / 10;
        w = w - 1;
    }
    assert(fraction_digits(n as nat, w as nat) == padded(n as nat, w as nat));
    push_padded(out, n, w);
}

/// Appends the text of the duration `secs` seconds and `nanos` nanoseconds to `out`.
pub fn push_seconds(out: &mut String, secs: u64, nanos: u32)
    requires
        nanos < 1_000_000_000,
    ensures
        final(out)@ == old(out)@ + seconds_text(secs as nat, nanos as nat),
{
    let ghost start = out@;
    push_decimal(out, secs);
    if nanos > 0 {
        out.push('.');
        push_fraction(out, nanos);
        assert(out@ =~= start + seconds_text(secs as nat, nanos as nat));
    }
}

} // verus!
