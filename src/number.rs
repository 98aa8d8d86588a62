use vstd::prelude::*;
use vstd::string::StringExecFns;

verus! {

/// Number of decimal places a `Number` keeps.
pub const FRACTION_DIGITS: usize = 6;

/// Millionths in one unit.
pub const MICROS_PER_UNIT: i64 = 1_000_000;

pub open spec fn pow10(n: nat) -> int
    decreases n,
{
    if n == 0 {
        1
    } else {
        10 * pow10((n - 1) as nat)
    }
}

pub proof fn lemma_pow10_positive(n: nat)
    ensures
        pow10(n) >= 1,
    decreases n,
{
    if n > 0 {
        lemma_pow10_positive((n - 1) as nat);
    }
}

pub proof fn lemma_pow10_monotone(a: nat, b: nat)
    requires
        a <= b,
    ensures
        pow10(a) <= pow10(b),
    decreases b,
{
    if a < b {
        lemma_pow10_monotone(a, (b - 1) as nat);
        lemma_pow10_positive((b - 1) as nat);
    }
}

proof fn lemma_pow10_eighteen()
    ensures
        pow10(18) == 1_000_000_000_000_000_000,
        pow10(6) == 1_000_000,
{
    reveal_with_fuel(pow10, 19);
}

/// A decimal number held exactly as a count of millionths.
#[derive(Clone, Copy, Debug, PartialEq, Eq, Structural)]
pub struct Number {
    pub micros: i64,
}

pub open spec fn is_digit(c: char) -> bool {
    '0' <= c && c <= '9'
}

pub open spec fn digit_value(c: char) -> int {
    c as int - '0' as int
}

/// State of a left-to-right scan of the unsigned part of a numeric literal:
/// (well formed so far, decimal point seen, digits before the point,
/// digits after the point, value of the digits before the point, value of
/// the first six digits after it, the seventh digit after it or 0).
pub open spec fn scan_step(st: (bool, bool, nat, nat, int, int, int), c: char) -> (bool, bool, nat, nat, int, int, int) {
    let (ok, dot, ip, fp, iv, fv, rd) = st;
    if !ok {
        st
    } else if is_digit(c) {
        if dot {
            if fp < FRACTION_DIGITS {
                (true, dot, ip, fp + 1, iv, fv * 10 + digit_value(c), rd)
            } else if fp == FRACTION_DIGITS {
                (true, dot, ip, fp + 1, iv, fv, digit_value(c))
            } else {
                (true, dot, ip, fp + 1, iv, fv, rd)
            }
        } else {
            (true, dot, ip + 1, fp, iv * 10 + digit_value(c), fv, rd)
        }
    } else if c == '.' && !dot {
        (true, true, ip, fp, iv, fv, rd)
    } else {
        (false, dot, ip, fp, iv, fv, rd)
    }
}

pub open spec fn scan_unsigned(t: Seq<char>) -> (bool, bool, nat, nat, int, int, int)
    decreases t.len(),
{
    if t.len() == 0 {
        (true, false, 0, 0, 0, 0, 0)
    } else {
        scan_step(scan_unsigned(t.drop_last()), t.last())
    }
}

/// The value in millionths of a numeric literal: an optional leading `-`,
/// then digits with at most one decimal point, and at least one digit.
/// Digits past the sixth after the point round the magnitude half up to
/// the nearest millionth, as reading a decimal into a binary double rounds
/// it to the nearest representable value. `None` for any other text
/// (`1-2`, `1.2.3`, `.`).
pub open spec fn literal_micros(t: Seq<char>) -> Option<int> {
    let neg = t.len() > 0 && t[0] == '-';
    let body = if neg { t.drop_first() } else { t };
    let (ok, dot, ip, fp, iv, fv, rd) = scan_unsigned(body);
    if ok && ip + fp > 0 {
        let kept: nat = if fp < FRACTION_DIGITS { fp } else { FRACTION_DIGITS as nat };
        let mag = iv * pow10(FRACTION_DIGITS as nat) + fv * pow10((FRACTION_DIGITS - kept) as nat) + (if rd >= 5 {
            1int
        } else {
            0int
        });
        Some(if neg { -mag } else { mag })
    } else {
        None
    }
}

/// Whether a number of millionths fits a `Number`: its magnitude fits an `i64`.
pub open spec fn fits_micros(v: int) -> bool {
    -(i64::MAX as int) <= v <= i64::MAX
}

/// Why a text is not read as a `Number`.
#[derive(Clone, Copy, Debug, PartialEq, Eq, Structural)]
pub enum LiteralError {
    /// The text is no numeric literal.
    Malformed,
    /// The literal's magnitude, in millionths, exceeds `i64::MAX`.
    OutOfRange,
}

pub open spec fn digit_char(d: int) -> char {
    if d == 0 { '0' }
    else if d == 1 { '1' }
    else if d == 2 { '2' }
    else if d == 3 { '3' }
    else if d == 4 { '4' }
    else if d == 5 { '5' }
    else if d == 6 { '6' }
    else if d == 7 { '7' }
    else if d == 8 { '8' }
    else { '9' }
}

/// Decimal digits of `n`, without leading zeros.
pub open spec fn digits_text(n: nat) -> Seq<char>
    decreases n,
{
    if n < 10 {
        seq![digit_char(n as int)]
    } else {
        digits_text(n / 10).push(digit_char((n % 10) as int))
    }
}

/// The last `k` decimal digits of `f`, leading zeros kept.
pub open spec fn padded_digits(f: nat, k: nat) -> Seq<char>
    decreases k,
{
    if k == 0 {
        Seq::empty()
    } else {
        padded_digits(f / 10, (k - 1) as nat).push(digit_char((f % 10) as int))
    }
}

/// `padded_digits(f, k)` with its trailing zeros removed.
pub open spec fn trimmed_digits(f: nat, k: nat) -> Seq<char>
    decreases k,
{
    if k > 0 && f % 10 == 0 {
        trimmed_digits(f / 10, (k - 1) as nat)
    } else {
        padded_digits(f, k)
    }
}

/// Text of a number of millionths: sign, integer part, and a fractional
/// part without trailing zeros when it is not zero (`5`, `-0.25`).
pub open spec fn number_text(m: int) -> Seq<char> {
    let a: nat = if m < 0 { (-m) as nat } else { m as nat };
    let ip = a / (MICROS_PER_UNIT as nat);
    let fp = a % (MICROS_PER_UNIT as nat);
    let sign = if m < 0 { seq!['-'] } else { Seq::<char>::empty() };
    let frac = if fp == 0 { Seq::<char>::empty() } else { seq!['.'] + trimmed_digits(fp, FRACTION_DIGITS as nat) };
    sign + digits_text(ip) + frac
}

fn digit_str(d: u64) -> (r: &'static str)
    requires
        d < 10,
    ensures
        r@ == seq![digit_char(d as int)],
{
    proof {
        reveal_strlit("0");
        reveal_strlit("1");
        reveal_strlit("2");
        reveal_strlit("3");
        reveal_strlit("4");
        reveal_strlit("5");
        reveal_strlit("6");
        reveal_strlit("7");
        reveal_strlit("8");
        reveal_strlit("9");
    }
    if d == 0 { "0" }
    else if d == 1 { "1" }
    else if d == 2 { "2" }
    else if d == 3 { "3" }
    else if d == 4 { "4" }
    else if d == 5 { "5" }
    else if d == 6 { "6" }
    else if d == 7 { "7" }
    else if d == 8 { "8" }
    else { "9" }
}

/// Appends the decimal digits of `n`.
pub fn push_digits(out: &mut String, n: u64)
    ensures
        final(out)@ == old(out)@ + digits_text(n as nat),
    decreases n,
{
    if n >= 10 {
        push_digits(out, n / 10);
    }
    out.append(digit_str(n % 10));
    proof {
        assert(old(out)@ + digits_text(n as nat) =~= final(out)@) by {
            if n >= 10 {
                assert(old(out)@ + digits_text(n as nat) =~= old(out)@ + digits_text((n / 10) as nat) + seq![digit_char((n % 10) as int)]);
            }
        }
    }
}

fn push_padded(out: &mut String, f: u64, k: u64)
    ensures
        final(out)@ == old(out)@ + padded_digits(f as nat, k as nat),
    decreases k,
{
    if k > 0 {
        push_padded(out, f / 10, k - 1);
        out.append(digit_str(f % 10));
        assert(final(out)@ =~= old(out)@ + padded_digits(f as nat, k as nat));
    } else {
        assert(final(out)@ =~= old(out)@ + padded_digits(f as nat, k as nat));
    }
}


proof fn lemma_pow10_values()
    ensures
        pow10(6) == 1_000_000,
        pow10(12) == 1_000_000_000_000,
        pow10(13) == 10_000_000_000_000,
{
    reveal_with_fuel(pow10, 14);
}

proof fn lemma_scan_facts(t: Seq<char>)
    ensures
        ({
            let (ok, dot, ip, fp, iv, fv, rd) = scan_unsigned(t);
            &&& iv >= 0
            &&& 0 <= fv < pow10(if fp < FRACTION_DIGITS { fp } else { FRACTION_DIGITS as nat })
            &&& 0 <= rd < 10
            &&& ip + fp <= t.len()
        }),
    decreases t.len(),
{
    if t.len() > 0 {
        lemma_scan_facts(t.drop_last());
        let (ok, dot, ip, fp, iv, fv, rd) = scan_unsigned(t.drop_last());
        let c = t.last();
        if ok && is_digit(c) && dot && fp < FRACTION_DIGITS {
            let d = digit_value(c);
            assert(pow10(fp + 1) == 10 * pow10(fp));
            assert(fv * 10 + d < pow10(fp + 1)) by (nonlinear_arith)
                requires
                    0 <= fv < pow10(fp),
                    0 <= d < 10,
                    pow10(fp + 1) == 10 * pow10(fp),
            ;
        }
        if ok && is_digit(c) && !dot {
            assert(iv * 10 + digit_value(c) >= 0) by (nonlinear_arith)
                requires
                    iv >= 0,
                    digit_value(c) >= 0,
            ;
        }
    }
}

/// Reads the numeric literal `chars[start..end]`.
pub fn parse_literal(chars: &Vec<char>, start: usize, end: usize) -> (r: Result<Number, LiteralError>)
    requires
        start <= end <= chars@.len(),
    ensures
        match literal_micros(chars@.subrange(start as int, end as int)) {
            Some(v) => if fits_micros(v) {
                r == Ok::<Number, LiteralError>(Number { micros: v as i64 })
            } else {
                r == Err::<Number, LiteralError>(LiteralError::OutOfRange)
            },
            None => r == Err::<Number, LiteralError>(LiteralError::Malformed),
        },
{
    let ghost t = chars@.subrange(start as int, end as int);
    let neg = start < end && chars[start] == '-';
    let body_start: usize = if neg { start + 1 } else { start };
    let ghost body = if neg { t.drop_first() } else { t };
    assert(body =~= chars@.subrange(body_start as int, end as int));
    let mut ok = true;
    let mut dot = false;
    let mut ip: usize = 0;
    let mut fp: usize = 0;
    let mut iv: i64 = 0;
    let mut big = false;
    let mut fv: i64 = 0;
    let mut rd: i64 = 0;
    let mut i: usize = body_start;
    proof {
        assert(chars@.subrange(body_start as int, body_start as int) =~= Seq::<char>::empty());
        lemma_pow10_values();
    }
    while i < end
        invariant
            body_start <= i <= end <= chars@.len(),
            body == chars@.subrange(body_start as int, end as int),
            pow10(12) == 1_000_000_000_000,
            pow10(13) == 10_000_000_000_000,
            ({
                let st = scan_unsigned(chars@.subrange(body_start as int, i as int));
                &&& st.0 == ok
                &&& st.1 == dot
                &&& st.2 == ip
                &&& st.3 == fp
                &&& st.5 == fv
                &&& st.6 == rd
                &&& (big ==> st.4 >= pow10(13))
                &&& (!big ==> st.4 == iv && 0 <= iv < pow10(13))
            }),
        decreases end - i,
    {
        let ghost sub = chars@.subrange(body_start as int, i as int);
        proof {
            lemma_scan_facts(sub);
            assert(chars@.subrange(body_start as int, i + 1).drop_last() =~= sub);
            assert(chars@.subrange(body_start as int, i + 1).last() == chars@[i as int]);
        }
        let ghost st = scan_unsigned(sub);
        let c = chars[i];
        if ok {
            if '0' <= c && c <= '9' {
                let d = (c as u32 - '0' as u32) as i64;
                if dot {
                    if fp < FRACTION_DIGITS {
                        proof {
                            lemma_pow10_monotone(fp as nat, 6);
                            lemma_pow10_values();
                        }
                        fv = fv * 10 + d;
                    } else if fp == FRACTION_DIGITS {
                        rd = d;
                    }
                    fp = fp + 1;
                } else {
                    if !big {
                        if iv >= 1_000_000_000_000 {
                            big = true;
                        } else {
                            iv = iv * 10 + d;
                        }
                    } else {
                        assert(st.4 * 10 + d >= st.4) by (nonlinear_arith)
                            requires
                                st.4 >= 0,
                                d >= 0,
                        ;
                    }
                    ip = ip + 1;
                }
            } else if c == '.' && !dot {
                dot = true;
            } else {
                ok = false;
            }
        }
        i = i + 1;
    }
    assert(chars@.subrange(body_start as int, i as int) =~= body);
    proof {
        lemma_scan_facts(body);
    }
    if !ok || ip + fp == 0 {
        return Err(LiteralError::Malformed);
    }
    let ghost st = scan_unsigned(body);
    let ghost kept: nat = if fp < FRACTION_DIGITS { fp as nat } else { FRACTION_DIGITS as nat };
    let ghost mag = st.4 * pow10(FRACTION_DIGITS as nat) + st.5 * pow10((FRACTION_DIGITS - kept) as nat) + (if st.6 >= 5 { 1int } else { 0int });
    proof {
        lemma_pow10_values();
        lemma_pow10_positive((FRACTION_DIGITS - kept) as nat);
    }
    if big {
        proof {
            assert(st.5 * pow10((FRACTION_DIGITS - kept) as nat) >= 0) by (nonlinear_arith)
                requires
                    st.5 >= 0,
                    pow10((FRACTION_DIGITS - kept) as nat) >= 1,
            ;
            assert(st.4 * 1_000_000 >= 10_000_000_000_000 * 1_000_000) by (nonlinear_arith)
                requires
                    st.4 >= 10_000_000_000_000,
            ;
        }
        return Err(LiteralError::OutOfRange);
    }
    let keep: usize = if fp < FRACTION_DIGITS { fp } else { FRACTION_DIGITS };
    let ghost fv0 = fv as int;
    let mut k: usize = 0;
    let mut f: i64 = fv;
    while k < FRACTION_DIGITS - keep
        invariant
            keep == kept,
            keep <= FRACTION_DIGITS,
            k <= FRACTION_DIGITS - keep,
            0 <= fv0 < pow10(keep as nat),
            f as int == fv0 * pow10(k as nat),
            0 <= f < pow10((keep + k) as nat),
        decreases FRACTION_DIGITS - keep - k,
    {
        proof {
            lemma_pow10_monotone((keep + k) as nat, 5);
            lemma_pow10_values();
            assert(pow10((k + 1) as nat) == 10 * pow10(k as nat));
            assert(pow10((keep + k + 1) as nat) == 10 * pow10((keep + k) as nat));
            assert(f * 10 == fv0 * pow10((k + 1) as nat)) by (nonlinear_arith)
                requires
                    f as int == fv0 * pow10(k as nat),
                    pow10((k + 1) as nat) == 10 * pow10(k as nat),
            ;
        }
        f = f * 10;
        k = k + 1;
    }
    proof {
        lemma_pow10_monotone((keep + k) as nat, 6);
        assert(iv as int * 1_000_000 < 10_000_000_000_000 * 1_000_000) by (nonlinear_arith)
            requires
                0 <= iv < 10_000_000_000_000int,
        ;
    }
    let up: i128 = if rd >= 5 { 1 } else { 0 };
    let m: i128 = iv as i128 * 1_000_000 + f as i128 + up;
    assert(m == mag);
    if m > i64::MAX as i128 {
        return Err(LiteralError::OutOfRange);
    }
    if neg {
        Ok(Number { micros: -(m as i64) })
    } else {
        Ok(Number { micros: m as i64 })
    }
}

impl Number {
    /// The whole number `n`.
    pub fn integer(n: i32) -> (r: Number)
        ensures
            r.micros == n * MICROS_PER_UNIT,
    {
        Number { micros: n as i64 * MICROS_PER_UNIT }
    }

    /// Sum, or `None` when it does not fit.
    pub fn checked_add(self, other: Number) -> (r: Option<Number>)
        ensures
            r == (if i64::MIN <= self.micros + other.micros <= i64::MAX {
                Some(Number { micros: (self.micros + other.micros) as i64 })
            } else {
                None::<Number>
            }),
    {
        match self.micros.checked_add(other.micros) {
            Some(m) => Some(Number { micros: m }),
            None => None,
        }
    }

    /// Difference, or `None` when it does not fit.
    pub fn checked_sub(self, other: Number) -> (r: Option<Number>)
        ensures
            r == (if i64::MIN <= self.micros - other.micros <= i64::MAX {
                Some(Number { micros: (self.micros - other.micros) as i64 })
            } else {
                None::<Number>
            }),
    {
        match self.micros.checked_sub(other.micros) {
            Some(m) => Some(Number { micros: m }),
            None => None,
        }
    }

    /// Decimal text of the number.
    pub fn to_text(&self) -> (r: String)
        ensures
            r@ == number_text(self.micros as int),
    {
        let m = self.micros;
        let a: u64 = if m < 0 { (-(m as i128)) as u64 } else { m as u64 };
        let ip: u64 = a / 1_000_000;
        let fp: u64 = a % 1_000_000;
        let mut out = String::new();
        if m < 0 {
            proof { reveal_strlit("-"); }
            out.append("-");
        }
        push_digits(&mut out, ip);
        if fp != 0 {
            proof { reveal_strlit("."); }
            out.append(".");
            let mut f: u64 = fp;
            let mut k: u64 = 6;
            while k > 0 && f % 10 == 0
                invariant
                    k <= 6,
                    trimmed_digits(fp as nat, 6) == trimmed_digits(f as nat, k as nat),
                decreases k,
            {
                f = f / 10;
                k = k - 1;
            }
            push_padded(&mut out, f, k);
        }
        proof {
            let sign = if m < 0 { seq!['-'] } else { Seq::<char>::empty() };
            let frac = if fp == 0 { Seq::<char>::empty() } else { seq!['.'] + trimmed_digits(fp as nat, 6) };
            assert(out@ =~= sign + digits_text(ip as nat) + frac);
        }
        out
    }
}

} // verus!
