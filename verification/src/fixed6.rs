//! Six-decimal fixed-point numbers used for signal values, weights and scores.

use vstd::prelude::*;

use crate::text::{all_digits, chars_of, decimal, digit_char, exec_digit_char, is_digit, push_char, push_decimal};

verus! {

/// One unit of the fixed-point scale: a `Fixed6` with raw value `SCALE` is 1.
pub const SCALE: i64 = 1_000_000;

/// A decimal number with exactly six fractional digits, stored as its value
/// times one million.
#[derive(Debug, Clone, Copy, PartialEq, Eq, PartialOrd, Ord, Hash)]
pub struct Fixed6(i64);

impl View for Fixed6 {
    type V = i64;

    closed spec fn view(&self) -> i64 {
        self.0
    }
}

/// `p / 10^6`, rounded to an integer with ties going away from zero.
pub open spec fn div_scale_half_away(p: int) -> int {
    let m = if p < 0 { -p } else { p };
    let q = m / (SCALE as int);
    let r = m % (SCALE as int);
    let rounded = if 2 * r >= SCALE { q + 1 } else { q };
    if p < 0 { -rounded } else { rounded }
}

/// The raw product of two fixed-point values, rescaled and rounded.
pub open spec fn spec_mul(a: i64, b: i64) -> Option<i64> {
    let q = div_scale_half_away(a * b);
    if i64::MIN <= q <= i64::MAX { Some(q as i64) } else { None }
}

proof fn lemma_product_bounds(a: int, b: int)
    requires
        -0x8000_0000_0000_0000 <= a <= 0x7fff_ffff_ffff_ffff,
        -0x8000_0000_0000_0000 <= b <= 0x7fff_ffff_ffff_ffff,
    ensures
        -0x4000_0000_0000_0000_0000_0000_0000_0000 <= a * b <= 0x4000_0000_0000_0000_0000_0000_0000_0000,
{
    let ma = if a < 0 { -a } else { a };
    let mb = if b < 0 { -b } else { b };
    assert(ma * mb <= 0x8000_0000_0000_0000 * 0x8000_0000_0000_0000) by (nonlinear_arith)
        requires 0 <= ma <= 0x8000_0000_0000_0000, 0 <= mb <= 0x8000_0000_0000_0000;
    assert(a * b == ma * mb || a * b == -(ma * mb)) by (nonlinear_arith)
        requires ma == (if a < 0 { -a } else { a }), mb == (if b < 0 { -b } else { b });
}

impl Fixed6 {
    /// The value zero.
    pub fn zero() -> (z: Fixed6)
        ensures z@ == 0,
    {
        Fixed6(0)
    }

    /// The value times one million.
    pub fn raw(self) -> (r: i64)
        ensures r == self@,
    {
        self.0
    }

    pub fn checked_add(self, other: Self) -> (r: Option<Self>)
        ensures
            match r {
                Some(s) => s@ == self@ + other@,
                None => self@ + other@ < i64::MIN || self@ + other@ > i64::MAX,
            },
    {
        match self.0.checked_add(other.0) {
            Some(v) => Some(Fixed6(v)),
            None => None,
        }
    }

    /// The product, rounded to six fractional digits half away from zero;
    /// `None` when it leaves the range of `i64` raw values.
    pub fn checked_mul(self, other: Self) -> (r: Option<Self>)
        ensures
            match r {
                Some(s) => spec_mul(self@, other@) == Some(s@),
                None => spec_mul(self@, other@) is None,
            },
    {
        let a: i128 = self.0 as i128;
        let b: i128 = other.0 as i128;
        proof {
            lemma_product_bounds(a as int, b as int);
        }
        let prod: i128 = a * b;
        let negative = prod < 0;
        let m: u128 = if negative { (0i128 - prod) as u128 } else { prod as u128 };
        let q: u128 = m / 1_000_000u128;
        let r: u128 = m % 1_000_000u128;
        let rounded: u128 = if r * 2 >= 1_000_000u128 { q + 1 } else { q };
        if negative {
            if rounded <= 9_223_372_036_854_775_808u128 {
                let v: i128 = 0i128 - (rounded as i128);
                Some(Fixed6(v as i64))
            } else {
                None
            }
        } else {
            if rounded <= 9_223_372_036_854_775_807u128 {
                Some(Fixed6(rounded as i64))
            } else {
                None
            }
        }
    }

    pub fn is_zero(self) -> (z: bool)
        ensures z == (self@ == 0),
    {
        self.0 == 0
    }
}


/// `10^e`
pub open spec fn pow10(e: nat) -> int
    decreases e,
{
    if e == 0 {
        1
    } else {
        10 * pow10((e - 1) as nat)
    }
}

proof fn lemma_pow10_grows(a: nat, b: nat)
    requires
        a <= b,
    ensures
        1 <= pow10(a) <= pow10(b),
    decreases b,
{
    if b > 0 {
        if a < b {
            lemma_pow10_grows(a, (b - 1) as nat);
        } else {
            lemma_pow10_grows((a - 1) as nat, (b - 1) as nat);
        }
    }
}

/// `10^exponent`, or `None` when it exceeds `i128`.
pub fn checked_pow10(exponent: u32) -> (r: Option<i128>)
    ensures
        match r {
            Some(v) => v == pow10(exponent as nat),
            None => pow10(exponent as nat) > i128::MAX,
        },
{
    let mut value: i128 = 1;
    let mut i: u32 = 0;
    while i < exponent
        invariant
            i <= exponent,
            value == pow10(i as nat),
        decreases exponent - i,
    {
        match value.checked_mul(10) {
            Some(v) => {
                value = v;
            },
            None => {
                proof {
                    lemma_pow10_grows((i + 1) as nat, exponent as nat);
                }
                return None;
            },
        }
        i = i + 1;
    }
    Some(value)
}

/// The exponent after `e` or `E` is not an `i32`.
pub const MSG_INVALID_EXPONENT: &'static str = "invalid decimal exponent";
/// A value, or a step of reading it, leaves its integer range.
pub const MSG_OVERFLOW: &'static str = "fixed6 overflow";
/// The mantissa has no digit, a second point, or another character.
pub const MSG_INVALID_DECIMAL: &'static str = "invalid decimal";
/// The value has a nonzero seventh fractional digit or beyond.
pub const MSG_TOO_PRECISE: &'static str = "more than six decimals";

/// The value of a decimal digit character.
pub open spec fn digit_value(c: char) -> int {
    c as int - '0' as int
}

/// The number the decimal digits `t` spell.
pub open spec fn digits_value(t: Seq<char>) -> int
    decreases t.len(),
{
    if t.len() == 0 {
        0
    } else {
        digits_value(t.drop_last()) * 10 + digit_value(t.last())
    }
}

/// The length of the sign that starts `t`: one for a leading `+` or `-`.
pub open spec fn sign_len(t: Seq<char>) -> int {
    if t.len() > 0 && (t[0] == '-' || t[0] == '+') {
        1
    } else {
        0
    }
}

/// The value of `t` as a decimal `i32`: an optional `+` or `-`, then one or
/// more digits, within the range of `i32`.
pub open spec fn parse_i32(t: Seq<char>) -> Option<int> {
    let digits = t.skip(sign_len(t));
    let magnitude = digits_value(digits);
    let v = if t.len() > 0 && t[0] == '-' {
        -magnitude
    } else {
        magnitude
    };
    if digits.len() == 0 || !all_digits(digits) || v < i32::MIN || v > i32::MAX {
        None
    } else {
        Some(v)
    }
}

/// Reading the first `n` characters of a mantissa, left to right: the digits
/// read as a number, the digits after the point, whether the point and
/// whether a digit were seen; or the error of the first bad character.
pub open spec fn read_mantissa(m: Seq<char>, n: nat) -> Result<(int, nat, bool, bool), Seq<char>>
    decreases n,
{
    if n == 0 {
        Ok((0, 0, false, false))
    } else {
        match read_mantissa(m, (n - 1) as nat) {
            Err(e) => Err(e),
            Ok((digits, places, point, seen)) => {
                let c = m[n - 1];
                if is_digit(c) {
                    let v = digits * 10 + digit_value(c);
                    if v > i128::MAX {
                        Err(MSG_OVERFLOW@)
                    } else {
                        Ok((v, if point { places + 1 } else { places }, point, true))
                    }
                } else if c == '.' && !point {
                    Ok((digits, places, true, seen))
                } else {
                    Err(MSG_INVALID_DECIMAL@)
                }
            },
        }
    }
}

/// The position of the first `e` or `E` at or after `i`, or `-1`.
pub open spec fn exponent_mark(u: Seq<char>, i: int) -> int
    decreases u.len() - i,
{
    if i >= u.len() || i < 0 {
        -1
    } else if u[i] == 'e' || u[i] == 'E' {
        i
    } else {
        exponent_mark(u, i + 1)
    }
}

/// The raw value of `±digits · 10^power`: that number when it is an integer
/// within the range of `i64`; "more than six decimals" when it is not an
/// integer; "fixed6 overflow" when it is an integer out of range.
pub open spec fn exact_raw(negative: bool, digits: nat, power: int) -> Result<i64, Seq<char>> {
    let magnitude: int = if power >= 0 {
        digits * pow10(power as nat)
    } else {
        digits as int / pow10((-power) as nat)
    };
    let v = if negative {
        -magnitude
    } else {
        magnitude
    };
    if power < 0 && digits as int % pow10((-power) as nat) != 0 {
        Err(MSG_TOO_PRECISE@)
    } else if i64::MIN <= v <= i64::MAX {
        Ok(v as i64)
    } else {
        Err(MSG_OVERFLOW@)
    }
}

/// The raw value of a JSON number text: an optional `-`, a mantissa of
/// digits with at most one point, and an optional `e`/`E` exponent in `i32`
/// syntax. Read as `±digits · 10^(exponent - places)`, where `places` counts
/// the digits after the point, the raw value is that number times 10^6
/// (`exact_raw`): accepted exactly when it is an integer in `i64` range.
pub open spec fn parse_fixed6_text(s: Seq<char>) -> Result<i64, Seq<char>> {
    let negative = s.len() > 0 && s[0] == '-';
    let u = if negative {
        s.skip(1)
    } else {
        s
    };
    let mark = exponent_mark(u, 0);
    let mantissa = if mark >= 0 {
        u.take(mark)
    } else {
        u
    };
    let exponent = if mark >= 0 {
        parse_i32(u.skip(mark + 1))
    } else {
        Some(0)
    };
    match exponent {
        None => Err(MSG_INVALID_EXPONENT@),
        Some(e) => match read_mantissa(mantissa, mantissa.len()) {
            Err(x) => Err(x),
            Ok((digits, places, _, seen)) => if !seen {
                Err(MSG_INVALID_DECIMAL@)
            } else {
                exact_raw(negative, digits as nat, e + 6 - places)
            },
        },
    }
}


proof fn lemma_read_mantissa_stays_err(m: Seq<char>, k: nat, n: nat)
    requires
        k <= n,
        read_mantissa(m, k) is Err,
    ensures
        read_mantissa(m, n) == read_mantissa(m, k),
    decreases n - k,
{
    if k < n {
        lemma_read_mantissa_stays_err(m, k, (n - 1) as nat);
    }
}

/// The first position at or after `start` of `v` holding `e` or `E`,
/// counted from `start`.
fn find_exponent_mark(v: &Vec<char>, start: usize) -> (r: Option<usize>)
    requires
        start <= v.len(),
    ensures
        match r {
            Some(k) => exponent_mark(v@.skip(start as int), 0) == k as int && start + k < v.len(),
            None => exponent_mark(v@.skip(start as int), 0) == -1,
        },
{
    let ghost u = v@.skip(start as int);
    let mut k: usize = 0;
    while start + k < v.len()
        invariant
            start <= v.len(),
            start + k <= v.len(),
            u == v@.skip(start as int),
            exponent_mark(u, 0) == exponent_mark(u, k as int),
        decreases v.len() - start - k,
    {
        let c = v[start + k];
        if c == 'e' || c == 'E' {
            return Some(k);
        }
        k = k + 1;
    }
    None
}

/// Reads `v[a..b]` as an `i32` the way `str::parse::<i32>` does.
fn parse_i32_in(v: &Vec<char>, a: usize, b: usize) -> (r: Option<i32>)
    requires
        a <= b <= v.len(),
    ensures
        match r {
            Some(x) => parse_i32(v@.subrange(a as int, b as int)) == Some(x as int),
            None => parse_i32(v@.subrange(a as int, b as int)) is None,
        },
{
    let ghost t = v@.subrange(a as int, b as int);
    let negative = a < b && v[a] == '-';
    let ds: usize = if a < b && (v[a] == '-' || v[a] == '+') { a + 1 } else { a };
    let ghost digits = t.skip(ds - a);
    assert(digits =~= v@.subrange(ds as int, b as int));
    assert(a < b ==> t[0] == v@[a as int]);
    assert(digits == t.skip(sign_len(t)));
    if ds == b {
        return None;
    }
    let mut acc: i64 = 0;
    let mut big = false;
    let mut i: usize = ds;
    while i < b
        invariant
            ds <= i <= b <= v.len(),
            digits == v@.subrange(ds as int, b as int),
            t == v@.subrange(a as int, b as int),
            digits == t.skip(sign_len(t)),
            forall|j: int| ds <= j < i ==> is_digit(#[trigger] v@[j]),
            big ==> digits_value(v@.subrange(ds as int, i as int)) > 0x8000_0000,
            !big ==> acc == digits_value(v@.subrange(ds as int, i as int)),
            !big ==> 0 <= acc <= 0x8000_0000,
        decreases b - i,
    {
        let c = v[i];
        if !('0' <= c && c <= '9') {
            assert(!is_digit(digits[i - ds]));
            assert(!all_digits(digits));
            return None;
        }
        let d: i64 = (c as u32 - '0' as u32) as i64;
        assert(d == digit_value(c));
        assert(v@.subrange(ds as int, i + 1).drop_last() =~= v@.subrange(ds as int, i as int));
        assert(digits_value(v@.subrange(ds as int, i + 1)) == digits_value(v@.subrange(ds as int, i as int)) * 10 + d);
        if !big {
            let next: i64 = acc * 10 + d;
            if next > 0x8000_0000 {
                big = true;
            } else {
                acc = next;
            }
        } else {
            assert(digits_value(v@.subrange(ds as int, i + 1)) > 0x8000_0000);
        }
        i = i + 1;
    }
    assert(v@.subrange(ds as int, i as int) =~= digits);
    assert forall|j: int| 0 <= j < digits.len() implies is_digit(#[trigger] digits[j]) by {
        assert(digits[j] == v@[ds + j]);
    }
    assert(all_digits(digits));
    if big {
        return None;
    }
    if negative {
        Some((0 - acc) as i32)
    } else if acc <= 0x7fff_ffff {
        Some(acc as i32)
    } else {
        None
    }
}

/// The owned text of a message.
fn message_text(m: &str) -> (s: String)
    ensures
        s@ == m@,
{
    String::from_str(m)
}

/// Reads the mantissa `v[a..b]` as `read_mantissa` does.
fn read_mantissa_in(v: &Vec<char>, a: usize, b: usize) -> (r: Result<(i128, usize, bool, bool), String>)
    requires
        a <= b <= v.len(),
    ensures
        match r {
            Ok((digits, places, point, seen)) => read_mantissa(v@.subrange(a as int, b as int), (b - a) as nat)
                == Ok::<(int, nat, bool, bool), Seq<char>>((digits as int, places as nat, point, seen))
                && places <= b - a && 0 <= digits,
            Err(e) => read_mantissa(v@.subrange(a as int, b as int), (b - a) as nat) == Err::<(int, nat, bool, bool), Seq<char>>(e@),
        },
{
    let ghost m = v@.subrange(a as int, b as int);
    let mut digits: i128 = 0;
    let mut places: usize = 0;
    let mut point = false;
    let mut seen = false;
    let mut i: usize = a;
    while i < b
        invariant
            a <= i <= b <= v.len(),
            m == v@.subrange(a as int, b as int),
            read_mantissa(m, (i - a) as nat) == Ok::<(int, nat, bool, bool), Seq<char>>((digits as int, places as nat, point, seen)),
            places <= i - a,
            0 <= digits,
        decreases b - i,
    {
        let c = v[i];
        assert(m[i - a] == c);
        if '0' <= c && c <= '9' {
            let d: i128 = (c as u32 - '0' as u32) as i128;
            assert(d == digit_value(c));
            if digits > (0x7fff_ffff_ffff_ffff_ffff_ffff_ffff_ffffi128 - d) / 10 {
                assert(digits * 10 + d > i128::MAX);
                proof {
                    reveal_strlit("fixed6 overflow");
                    lemma_read_mantissa_stays_err(m, (i + 1 - a) as nat, (b - a) as nat);
                }
                return Err(message_text(MSG_OVERFLOW));
            }
            digits = digits * 10 + d;
            if point {
                places = places + 1;
            }
            seen = true;
        } else if c == '.' && !point {
            point = true;
        } else {
            proof {
                reveal_strlit("invalid decimal");
                lemma_read_mantissa_stays_err(m, (i + 1 - a) as nat, (b - a) as nat);
            }
            return Err(message_text(MSG_INVALID_DECIMAL));
        }
        i = i + 1;
    }
    Ok((digits, places, point, seen))
}

proof fn lemma_pow10_beyond_i128(k: nat)
    requires
        k >= 39,
    ensures
        pow10(k) > i128::MAX,
{
    reveal_with_fuel(pow10, 40);
    assert(pow10(39) == 1_000_000_000_000_000_000_000_000_000_000_000_000_000);
    lemma_pow10_grows(39, k);
}

/// `exact_raw` for a positive count of digits.
fn scaled_raw(negative: bool, digits: i128, power: i128) -> (r: Result<i64, String>)
    requires
        0 < digits,
        -0x7fff_ffff_ffff_ffff_ffff_ffff_ffff_ffff <= power <= 0x8000_0006,
    ensures
        match r {
            Ok(v) => exact_raw(negative, digits as nat, power as int) == Ok::<i64, Seq<char>>(v),
            Err(e) => exact_raw(negative, digits as nat, power as int) == Err::<i64, Seq<char>>(e@),
        },
{
    proof {
        reveal_strlit("fixed6 overflow");
        reveal_strlit("more than six decimals");
    }
    let magnitude: i128 = if power >= 0 {
        let ghost q = pow10(power as nat);
        proof {
            lemma_pow10_grows(0, power as nat);
        }
        assert(digits * q >= q) by (nonlinear_arith)
            requires digits >= 1, q >= 1;
        match checked_pow10(power as u32) {
            None => {
                return Err(message_text(MSG_OVERFLOW));
            },
            Some(p) => match digits.checked_mul(p) {
                None => {
                    return Err(message_text(MSG_OVERFLOW));
                },
                Some(x) => x,
            },
        }
    } else {
        let down: i128 = 0 - power;
        if down > 0xffff_ffff {
            proof {
                lemma_pow10_beyond_i128(down as nat);
                let q = pow10(down as nat);
                assert(digits as int % q == digits) by (nonlinear_arith)
                    requires 0 < digits < q;
            }
            return Err(message_text(MSG_TOO_PRECISE));
        }
        match checked_pow10(down as u32) {
            None => {
                proof {
                    let q = pow10(down as nat);
                    assert(digits as int % q == digits) by (nonlinear_arith)
                        requires 0 < digits < q;
                }
                return Err(message_text(MSG_TOO_PRECISE));
            },
            Some(p) => {
                proof {
                    lemma_pow10_grows(0, down as nat);
                }
                if digits % p != 0 {
                    return Err(message_text(MSG_TOO_PRECISE));
                }
                assert(0 <= digits / p <= digits) by (nonlinear_arith)
                    requires digits > 0, p >= 1;
                digits / p
            },
        }
    };
    let signed: i128 = if negative { 0 - magnitude } else { magnitude };
    if signed < -0x8000_0000_0000_0000 || signed > 0x7fff_ffff_ffff_ffff {
        return Err(message_text(MSG_OVERFLOW));
    }
    Ok(signed as i64)
}

/// The fixed-point value written as a JSON number: an optional `-`, digits
/// with at most one decimal point, and an optional exponent. Fails with
/// "invalid decimal exponent", "invalid decimal", "more than six decimals"
/// or "fixed6 overflow".
pub fn parse_fixed6(s: &str) -> (r: Result<Fixed6, String>)
    ensures
        match r {
            Ok(f) => parse_fixed6_text(s@) == Ok::<i64, Seq<char>>(f@),
            Err(e) => parse_fixed6_text(s@) == Err::<i64, Seq<char>>(e@),
        },
{
    let v = chars_of(s);
    let n = v.len();
    let negative = n > 0 && v[0] == '-';
    let start: usize = if negative { 1 } else { 0 };
    let ghost u = s@.skip(start as int);
    assert(negative ==> u =~= s@.skip(1));
    assert(!negative ==> u =~= s@);
    let mark = find_exponent_mark(&v, start);
    let (mantissa_end, exponent): (usize, i32) = match mark {
        Some(k) => {
            assert(u.skip(k + 1) =~= v@.subrange(start + k + 1, n as int));
            match parse_i32_in(&v, start + k + 1, n) {
                Some(e) => (start + k, e),
                None => {
                    proof {
                        reveal_strlit("invalid decimal exponent");
                    }
                    return Err(message_text(MSG_INVALID_EXPONENT));
                },
            }
        },
        None => (n, 0),
    };
    let ghost m = v@.subrange(start as int, mantissa_end as int);
    assert(mark is Some ==> m =~= u.take(mantissa_end - start));
    assert(mark is None ==> m =~= u);
    let (digits, places, _point, seen) = match read_mantissa_in(&v, start, mantissa_end) {
        Err(e) => {
            return Err(e);
        },
        Ok(x) => x,
    };
    if !seen {
        proof {
            reveal_strlit("invalid decimal");
        }
        return Err(message_text(MSG_INVALID_DECIMAL));
    }
    if digits == 0 {
        proof {
            let power = exponent + 6 - places;
            if power < 0 {
                lemma_pow10_grows(0, (-power) as nat);
            }
            assert(exact_raw(negative, 0, power) == Ok::<i64, Seq<char>>(0));
        }
        return Ok(Fixed6(0));
    }
    let scale_power: i128 = exponent as i128 + 6 - places as i128;
    match scaled_raw(negative, digits, scale_power) {
        Ok(v) => Ok(Fixed6(v)),
        Err(e) => Err(e),
    }
}


/// The last `width` decimal digits of `n`, with leading zeros.
pub open spec fn padded(n: nat, width: nat) -> Seq<char>
    decreases width,
{
    if width == 0 {
        Seq::empty()
    } else {
        padded(n / 10, (width - 1) as nat).push(digit_char(n % 10))
    }
}

/// `t` without its trailing zeros.
pub open spec fn trim_zeros(t: Seq<char>) -> Seq<char>
    decreases t.len(),
{
    if t.len() > 0 && t.last() == '0' {
        trim_zeros(t.drop_last())
    } else {
        t
    }
}

/// The shortest decimal text of a fixed-point raw value: `0`, or an optional
/// `-`, the integer part, and the fractional digits without trailing zeros
/// after a point when there are any.
pub open spec fn fixed6_text(raw: int) -> Seq<char> {
    if raw == 0 {
        seq!['0']
    } else {
        let sign = if raw < 0 {
            seq!['-']
        } else {
            Seq::empty()
        };
        let m = if raw < 0 {
            -raw
        } else {
            raw
        };
        let whole = decimal((m / SCALE as int) as nat);
        let frac = (m % SCALE as int) as nat;
        if frac == 0 {
            sign + whole
        } else {
            sign + whole + seq!['.'] + trim_zeros(padded(frac, 6))
        }
    }
}

/// Appends the last `width` decimal digits of `n`, with leading zeros.
fn push_padded(s: &mut String, n: u64, width: u32)
    ensures
        final(s)@ == old(s)@ + padded(n as nat, width as nat),
    decreases width,
{
    if width > 0 {
        push_padded(s, n / 10, width - 1);
        let c = exec_digit_char(n % 10);
        push_char(s, c);
        proof {
            assert(old(s)@ + padded(n as nat, width as nat) =~= (old(s)@ + padded((n / 10) as nat, (width - 1) as nat)).push(c));
        }
    } else {
        assert(old(s)@ + padded(n as nat, 0) =~= old(s)@);
    }
}

proof fn lemma_padded_last(n: nat, width: nat)
    requires
        width > 0,
    ensures
        padded(n, width).len() == width,
        padded(n, width).last() == digit_char(n % 10),
        padded(n, width).drop_last() == padded(n / 10, (width - 1) as nat),
    decreases width,
{
    lemma_padded_len((n / 10) as nat, (width - 1) as nat);
    assert(padded(n, width).drop_last() =~= padded(n / 10, (width - 1) as nat));
}

proof fn lemma_padded_len(n: nat, width: nat)
    ensures
        padded(n, width).len() == width,
    decreases width,
{
    if width > 0 {
        lemma_padded_len(n / 10, (width - 1) as nat);
    }
}

impl Fixed6 {
    /// The shortest decimal text of the value, as `fixed6_text` states.
    pub fn to_string(self) -> (t: String)
        requires
            self@ != i64::MIN,
        ensures
            t@ == fixed6_text(self@ as int),
    {
        let mut t = String::new();
        if self.0 == 0 {
            push_char(&mut t, '0');
            assert(t@ =~= seq!['0']);
            return t;
        }
        if self.0 < 0 {
            push_char(&mut t, '-');
        }
        let ghost sign = t@;
        let m: u64 = if self.0 < 0 { (0 - self.0) as u64 } else { self.0 as u64 };
        push_decimal(&mut t, m / 1_000_000);
        let frac: u64 = m % 1_000_000;
        if frac == 0 {
            return t;
        }
        push_char(&mut t, '.');
        let mut f: u64 = frac;
        let mut w: u32 = 6;
        proof {
            reveal_with_fuel(pow10, 7);
        }
        while f % 10 == 0
            invariant
                0 < f < pow10(w as nat),
                w <= 6,
                trim_zeros(padded(f as nat, w as nat)) == trim_zeros(padded(frac as nat, 6)),
            decreases f,
        {
            proof {
                if w == 0 {
                    assert(false);
                }
                lemma_padded_last(f as nat, w as nat);
                assert(digit_char(0) == '0');
            }
            f = f / 10;
            w = w - 1;
        }
        proof {
            if w > 0 {
                lemma_padded_last(f as nat, w as nat);
                assert(digit_char((f % 10) as nat) != '0');
            } else {
                assert(false);
            }
        }
        push_padded(&mut t, f, w);
        proof {
            assert(t@ =~= fixed6_text(self@ as int));
        }
        t
    }
}


proof fn lemma_digit_char(d: nat)
    requires
        d < 10,
    ensures
        is_digit(digit_char(d)),
        digit_value(digit_char(d)) == d,
        digit_char(d) != 'e' && digit_char(d) != 'E' && digit_char(d) != '.' && digit_char(d) != '-',
{
}

proof fn lemma_decimal_digits(n: nat)
    ensures
        decimal(n).len() >= 1,
        all_digits(decimal(n)),
        digits_value(decimal(n)) == n,
    decreases n,
{
    lemma_digit_char(n % 10);
    if n >= 10 {
        lemma_decimal_digits(n / 10);
        let d = decimal(n);
        assert(d.drop_last() =~= decimal(n / 10));
        assert(d.last() == digit_char(n % 10));
        assert(digits_value(d) == (n / 10) * 10 + n % 10);
        assert forall|i: int| 0 <= i < d.len() implies is_digit(#[trigger] d[i]) by {
            if i < d.len() - 1 {
                assert(d[i] == decimal(n / 10)[i]);
            }
        }
    } else {
        assert(seq![digit_char(n)].drop_last() =~= Seq::<char>::empty());
        assert(seq![digit_char(n)].last() == digit_char(n));
        assert(digits_value(decimal(n)) == digits_value(Seq::<char>::empty()) * 10 + n);
    }
}

proof fn lemma_padded_digits(n: nat, w: nat)
    requires
        n < pow10(w),
    ensures
        padded(n, w).len() == w,
        all_digits(padded(n, w)),
        digits_value(padded(n, w)) == n,
    decreases w,
{
    if w > 0 {
        lemma_digit_char(n % 10);
        lemma_padded_digits(n / 10, (w - 1) as nat);
        let p = padded(n, w);
        assert(p.drop_last() =~= padded(n / 10, (w - 1) as nat));
        assert forall|i: int| 0 <= i < p.len() implies is_digit(#[trigger] p[i]) by {
            if i < p.len() - 1 {
                assert(p[i] == padded(n / 10, (w - 1) as nat)[i]);
            }
        }
    } else {
        assert(n == 0);
    }
}

proof fn lemma_pow10_add(a: nat, b: nat)
    ensures
        pow10(a) * pow10(b) == pow10(a + b),
    decreases a,
{
    if a > 0 {
        lemma_pow10_add((a - 1) as nat, b);
        assert(pow10(a) * pow10(b) == 10 * (pow10((a - 1) as nat) * pow10(b))) by (nonlinear_arith)
            requires pow10(a) == 10 * pow10((a - 1) as nat);
    }
}

/// Trailing zeros trimmed from `w` digits of `n` leave the `k` digits of
/// some `f` with `n == f * 10^(w - k)`.
proof fn lemma_trim_padded(n: nat, w: nat) -> (fk: (nat, nat))
    requires
        0 < n < pow10(w),
    ensures
        trim_zeros(padded(n, w)) == padded(fk.0, fk.1),
        fk.1 <= w,
        0 < fk.0 < pow10(fk.1),
        n == fk.0 * pow10((w - fk.1) as nat),
    decreases w,
{
    if w == 0 {
        assert(false);
        (0, 0)
    } else {
        lemma_padded_last(n, w);
        lemma_digit_char(n % 10);
        if n % 10 == 0 {
            assert(digit_char(0) == '0');
            let fk = lemma_trim_padded(n / 10, (w - 1) as nat);
            let e = (w - 1 - fk.1) as nat;
            assert(pow10(e + 1) == 10 * pow10(e));
            assert(n == 10 * (n / 10));
            assert(n == fk.0 * pow10((w - fk.1) as nat)) by (nonlinear_arith)
                requires
                    n == 10 * (n / 10),
                    n / 10 == fk.0 * pow10(e),
                    pow10((w - fk.1) as nat) == 10 * pow10(e);
            fk
        } else {
            assert(digit_char((n % 10) as nat) != '0');
            (n, w)
        }
    }
}

proof fn lemma_no_exponent_mark(u: Seq<char>, i: int)
    requires
        0 <= i,
        forall|j: int| 0 <= j < u.len() ==> u[j] != 'e' && u[j] != 'E',
    ensures
        exponent_mark(u, i) == -1,
    decreases u.len() - i,
{
    if i < u.len() {
        lemma_no_exponent_mark(u, i + 1);
    }
}

/// Reading the digits `m[a..b]` after a state `(v, p, point, seen)`.
proof fn lemma_read_digits(m: Seq<char>, a: nat, b: nat, v: int, p: nat, point: bool, seen: bool)
    requires
        a <= b <= m.len(),
        forall|i: int| a <= i < b ==> is_digit(#[trigger] m[i]),
        read_mantissa(m, a) == Ok::<(int, nat, bool, bool), Seq<char>>((v, p, point, seen)),
        0 <= v,
        v * pow10((b - a) as nat) + digits_value(m.subrange(a as int, b as int)) <= i128::MAX,
    ensures
        read_mantissa(m, b) == Ok::<(int, nat, bool, bool), Seq<char>>((
            v * pow10((b - a) as nat) + digits_value(m.subrange(a as int, b as int)),
            if point {
                (p + (b - a)) as nat
            } else {
                p
            },
            point,
            seen || b > a,
        )),
    decreases b,
{
    if b > a {
        let k = (b - 1 - a) as nat;
        let prev = m.subrange(a as int, b - 1);
        let now = m.subrange(a as int, b as int);
        assert(now.drop_last() =~= prev);
        assert(now.last() == m[b - 1]);
        assert(all_digits(prev));
        lemma_digits_value_nonneg(prev);
        let x = v * pow10(k) + digits_value(prev);
        let d = digit_value(m[b - 1]);
        assert(v * pow10(k + 1) + digits_value(now) == x * 10 + d) by (nonlinear_arith)
            requires
                pow10(k + 1) == 10 * pow10(k),
                digits_value(now) == digits_value(prev) * 10 + d,
                x == v * pow10(k) + digits_value(prev);
        lemma_pow10_grows(0, k);
        assert(x >= 0) by (nonlinear_arith)
            requires v >= 0, pow10(k) >= 1, digits_value(prev) >= 0, x == v * pow10(k) + digits_value(prev);
        lemma_read_digits(m, a, (b - 1) as nat, v, p, point, seen);
    } else {
        assert(m.subrange(a as int, b as int) =~= Seq::<char>::empty());
    }
}

proof fn lemma_digits_value_nonneg(t: Seq<char>)
    requires
        all_digits(t),
    ensures
        digits_value(t) >= 0,
    decreases t.len(),
{
    if t.len() > 0 {
        assert(all_digits(t.drop_last()));
        lemma_digits_value_nonneg(t.drop_last());
    }
}

proof fn lemma_pow10_six()
    ensures
        pow10(6) == 1_000_000,
{
    reveal_with_fuel(pow10, 7);
}

/// Reading the digits of the whole part and then, after a point, the
/// fractional digits `f` of a text `body`.
proof fn lemma_read_body(body: Seq<char>, w: nat, lw: nat, f: nat, k: nat)
    requires
        lw <= body.len(),
        body.subrange(0, lw as int) == decimal(w),
        w <= i64::MAX,
        body.len() == lw || (body.len() == lw + 1 + k && body[lw as int] == '.'
            && body.subrange(lw + 1int, body.len() as int) == padded(f, k) && f < pow10(k)
            && k <= 6 && f <= 999_999),
    ensures
        body.len() == lw ==> read_mantissa(body, body.len()) == Ok::<(int, nat, bool, bool), Seq<char>>((w as int, 0nat, false, true)),
        body.len() != lw ==> read_mantissa(body, body.len()) == Ok::<(int, nat, bool, bool), Seq<char>>((w * pow10(k) + f, k, true, true)),
{
    lemma_decimal_digits(w);
    assert forall|i: int| 0 <= i < lw implies is_digit(#[trigger] body[i]) by {
        assert(body[i] == decimal(w)[i]);
    }
    assert(0 * pow10(lw) == 0);
    lemma_read_digits(body, 0, lw, 0, 0, false, false);
    if body.len() != lw {
        let end = body.len();
        assert(read_mantissa(body, lw + 1) == Ok::<(int, nat, bool, bool), Seq<char>>((w as int, 0nat, true, true)));
        lemma_padded_digits(f, k);
        assert forall|i: int| lw + 1 <= i < end implies is_digit(#[trigger] body[i]) by {
            assert(body[i] == padded(f, k)[i - lw - 1]);
        }
        lemma_pow10_grows(k, 6);
        lemma_pow10_six();
        assert(w * pow10(k) + f <= i128::MAX) by (nonlinear_arith)
            requires w <= i64::MAX, pow10(k) <= 1_000_000, f <= 999_999;
        lemma_read_digits(body, lw + 1, end as nat, w as int, 0, true, true);
    }
}

/// The text of the magnitude `m` of a nonzero value, without its sign,
/// reads back as `m`: the digits read, the places after the point, and
/// their scaling.
proof fn lemma_magnitude_reads_back(m: int) -> (body: Seq<char>)
    requires
        0 < m <= i64::MAX,
    ensures
        body == (if m % 1_000_000 == 0 {
            decimal((m / 1_000_000) as nat)
        } else {
            decimal((m / 1_000_000) as nat) + seq!['.'] + trim_zeros(
                padded((m % 1_000_000) as nat, 6),
            )
        }),
        body.len() > 0 && is_digit(body[0]),
        exponent_mark(body, 0) == -1,
        ({
            match read_mantissa(body, body.len()) {
                Ok((digits, places, _, seen)) => seen && places <= 6 && 0 <= digits && digits * pow10(
                    (6 - places) as nat,
                ) == m,
                Err(_) => false,
            }
        }),
{
    lemma_pow10_six();
    let w = (m / 1_000_000) as nat;
    let frac = (m % 1_000_000) as nat;
    let whole = decimal(w);
    lemma_decimal_digits(w);
    let lw = whole.len();
    let (f, k, body) = if frac == 0 {
        (0nat, 0nat, whole)
    } else {
        let fk = lemma_trim_padded(frac, 6);
        (fk.0, fk.1, whole + seq!['.'] + padded(fk.0, fk.1))
    };
    if frac != 0 {
        lemma_padded_digits(f, k);
        assert(body.subrange(lw + 1int, body.len() as int) =~= padded(f, k));
        lemma_pow10_grows(0, (6 - k) as nat);
        assert(f <= frac) by (nonlinear_arith)
            requires frac == f * pow10((6 - k) as nat), pow10((6 - k) as nat) >= 1;
    }
    assert(body.subrange(0, lw as int) =~= whole);
    assert(body[0] == whole[0]);
    assert forall|j: int| 0 <= j < body.len() implies body[j] != 'e' && body[j] != 'E' by {
        if j < lw {
            assert(body[j] == whole[j]);
            assert(is_digit(whole[j]));
        } else if j > lw {
            assert(body[j] == padded(f, k)[j - lw - 1]);
            assert(is_digit(padded(f, k)[j - lw - 1]));
        }
    }
    lemma_no_exponent_mark(body, 0);
    lemma_read_body(body, w, lw, f, k);
    if frac == 0 {
        assert(m == w * 1_000_000);
    } else {
        lemma_pow10_add(k, (6 - k) as nat);
        lemma_pow10_grows(0, (6 - k) as nat);
        assert((w * pow10(k) + f) * pow10((6 - k) as nat) == m) by (nonlinear_arith)
            requires
                pow10(k) * pow10((6 - k) as nat) == 1_000_000,
                frac == f * pow10((6 - k) as nat),
                m == w * 1_000_000 + frac;
        assert(w * pow10(k) + f > 0) by (nonlinear_arith)
            requires f > 0, pow10(k) >= 1;
        lemma_pow10_grows(0, 6);
        lemma_pow10_grows((6 - k) as nat, 6);
    }
    body
}

/// The shortest decimal text of a value reads back as that value.
pub proof fn lemma_text_reads_back(raw: i64)
    requires
        raw != i64::MIN,
    ensures
        parse_fixed6_text(fixed6_text(raw as int)) == Ok::<i64, Seq<char>>(raw),
{
    let t = fixed6_text(raw as int);
    if raw == 0 {
        lemma_no_exponent_mark(t, 0);
        assert(digit_char(0) == '0');
        assert(t.subrange(0, 1) =~= decimal(0));
        lemma_read_body(t, 0, 1, 0, 0);
    } else {
        let m: int = if raw < 0 { -raw } else { raw as int };
        let body = lemma_magnitude_reads_back(m);
        assert(t == if raw < 0 { seq!['-'] + body } else { body });
        assert(raw < 0 ==> t.skip(1) =~= body);
    }
}


/// Multiplication rounds to the nearest raw value, ties away from zero: it
/// is commutative, symmetric in sign, off by at most half a unit of the last
/// digit (a tie rounding away from zero), has one as identity and zero as
/// absorbing element.
pub proof fn lemma_mul_rounding(a: i64, b: i64)
    ensures
        spec_mul(a, b) == spec_mul(b, a),
        div_scale_half_away(-(a * b)) == -div_scale_half_away(a * b),
        -(SCALE as int) <= 2 * (a * b - SCALE * div_scale_half_away(a * b)) <= SCALE,
        2 * (a * b - SCALE * div_scale_half_away(a * b)) == SCALE ==> a * b < 0,
        2 * (a * b - SCALE * div_scale_half_away(a * b)) == -SCALE ==> a * b > 0,
        spec_mul(a, SCALE) == Some(a),
        spec_mul(a, 0) == Some(0i64),
{
    assert(a * b == b * a) by (nonlinear_arith);
    assert(a * 0 == 0) by (nonlinear_arith);
    let s = SCALE as int;
    assert((a * s) % s == 0 && (a * s) / s == a && (-(a * s)) % s == 0 && (-(a * s)) / s == -a)
        by (nonlinear_arith)
        requires s == 1_000_000;
    let p = a * b;
    let m = if p < 0 { -p } else { p };
    assert(m == s * (m / s) + m % s && 0 <= m % s < s) by (nonlinear_arith)
        requires s == 1_000_000, m >= 0;
}

/// The decimal text of a value is canonical: `0` for zero, a leading `-`
/// exactly for negative values, and, when it has a point, a last character
/// that is not `0`.
pub proof fn lemma_text_canonical(raw: i64)
    requires
        raw != i64::MIN,
    ensures
        raw == 0 <==> fixed6_text(raw as int) == seq!['0'],
        fixed6_text(raw as int).len() > 0,
        (fixed6_text(raw as int)[0] == '-') == (raw < 0),
        (exists|i: int| 0 <= i < fixed6_text(raw as int).len() && fixed6_text(raw as int)[i] == '.')
            ==> fixed6_text(raw as int).last() != '0',
{
    let t = fixed6_text(raw as int);
    if raw != 0 {
        let m: int = if raw < 0 { -raw } else { raw as int };
        let w = (m / 1_000_000) as nat;
        let frac = (m % 1_000_000) as nat;
        lemma_decimal_digits(w);
        let whole = decimal(w);
        let sign = if raw < 0 { seq!['-'] } else { Seq::<char>::empty() };
        if frac == 0 {
            assert(t == sign + whole);
            assert(w > 0);
            if raw > 0 {
                assert(t[0] == whole[0]);
                if t == seq!['0'] {
                    assert(whole =~= seq!['0']);
                    assert(whole.drop_last() =~= Seq::<char>::empty());
                    assert(whole.last() == '0');
                    assert(digit_value('0') == 0);
                    assert(digits_value(whole) == digits_value(whole.drop_last()) * 10 + digit_value(whole.last()));
                    assert(digits_value(whole) == 0);
                }
            }
            assert forall|i: int| 0 <= i < t.len() implies t[i] != '.' by {
                if raw < 0 {
                    if i > 0 {
                        assert(t[i] == whole[i - 1]);
                        assert(is_digit(whole[i - 1]));
                    }
                } else {
                    assert(t[i] == whole[i]);
                    assert(is_digit(whole[i]));
                }
            }
        } else {
            lemma_pow10_six();
            let fk = lemma_trim_padded(frac, 6);
            lemma_padded_digits(fk.0, fk.1);
            if fk.1 == 0 {
                assert(pow10(0) == 1);
            }
            lemma_padded_last(fk.0, fk.1);
            lemma_digit_char(fk.0 % 10);
            let tail = padded(fk.0, fk.1);
            assert(t == sign + whole + seq!['.'] + tail);
            assert(t.last() == tail.last());
            lemma_trim_ends(padded(frac, 6));
            if raw > 0 {
                assert(t[0] == whole[0]);
            }
        }
    }
}

proof fn lemma_trim_ends(t: Seq<char>)
    ensures
        trim_zeros(t).len() == 0 || trim_zeros(t).last() != '0',
    decreases t.len(),
{
    if t.len() > 0 && t.last() == '0' {
        lemma_trim_ends(t.drop_last());
    }
}


/// An exponent reads as the number its decimal digits write, negated after
/// a `-`, whenever that number fits an `i32`; other texts after `e` are no
/// exponent.
pub proof fn lemma_exponent_reading(n: nat)
    ensures
        n <= 0x7fff_ffff ==> parse_i32(decimal(n)) == Some(n as int),
        n <= 0x7fff_ffff ==> parse_i32(seq!['+'] + decimal(n)) == Some(n as int),
        n <= 0x8000_0000 ==> parse_i32(seq!['-'] + decimal(n)) == Some(-(n as int)),
        n > 0x8000_0000 ==> parse_i32(seq!['-'] + decimal(n)) is None,
        parse_i32(Seq::empty()) is None,
        parse_i32(seq!['-']) is None,
{
    lemma_decimal_digits(n);
    let d = decimal(n);
    lemma_digit_char(0);
    assert(is_digit(d[0]));
    assert(d[0] != '-' && d[0] != '+');
    assert(sign_len(d) == 0);
    assert(d.skip(0) =~= d);
    assert((seq!['+'] + d).skip(1) =~= d);
    assert((seq!['-'] + d).skip(1) =~= d);
    assert(seq!['-'].skip(1) =~= Seq::<char>::empty());
}

} // verus!
