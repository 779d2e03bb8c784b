//! Amounts in a fixed decimal scale: an unsigned 64-bit integer counting
//! millionths.
use vstd::prelude::*;
use vstd::string::{StrSliceExecFns, StringExecFns};

use crate::lp_pool::LpPoolError;

verus! {

/// Why a decimal text could not be read as an amount.
#[derive(Debug, PartialEq, Eq, Structural)]
pub enum FixedU64Error {
    /// There is no `.` between the integer and the fractional part.
    MissingDelimiter,
    /// The integer part is not a base-10 number, or the amount does not fit in
    /// 64 bits.
    IncorrectIntegerPart,
    /// The fractional part holds a character that is not a decimal digit: its
    /// index within the fractional part, and the character.
    IncorrectFractionalPart(usize, char),
}

/// The number of units in one whole: six decimal digits of precision.
pub const FIXED_PRECISION: u64 = 1_000_000;

/// `⌊a · b / FIXED_PRECISION⌋`, or `CalculationError` when that does not fit in 64 bits.
pub open spec fn multiply_spec(a: u64, b: u64) -> Result<u64, LpPoolError> {
    let q = a * b / FIXED_PRECISION as int;
    if q <= u64::MAX {
        Ok(q as u64)
    } else {
        Err(LpPoolError::CalculationError)
    }
}

/// `⌊amount · numerator / denominator⌋`, or `CalculationError` when that does not
/// fit in 64 bits; a zero denominator leaves `amount` as it is.
pub open spec fn proportional_spec(amount: u64, numerator: u64, denominator: u64) -> Result<
    u64,
    LpPoolError,
> {
    if denominator == 0 {
        Ok(amount)
    } else {
        let q = amount * numerator / denominator as int;
        if q <= u64::MAX {
            Ok(q as u64)
        } else {
            Err(LpPoolError::CalculationError)
        }
    }
}

pub open spec fn is_digit(c: char) -> bool {
    '0' as u32 <= c as u32 <= '9' as u32
}

pub open spec fn digit_value(c: char) -> int {
    c as u32 - '0' as u32
}

pub open spec fn all_digits(t: Seq<char>) -> bool {
    forall|i: int| 0 <= i < t.len() ==> is_digit(#[trigger] t[i])
}

/// The number that a string of decimal digits spells.
pub open spec fn digits_value(t: Seq<char>) -> nat
    decreases t.len(),
{
    if t.len() == 0 {
        0
    } else {
        (digits_value(t.drop_last()) * 10 + digit_value(t.last())) as nat
    }
}

/// An integer text without the `+` sign that may lead it.
pub open spec fn unsigned_digits(t: Seq<char>) -> Seq<char> {
    if t.len() > 0 && t[0] == '+' {
        t.drop_first()
    } else {
        t
    }
}

/// A base-10 integer text: an optional `+`, then one digit or more.
pub open spec fn is_unsigned_text(t: Seq<char>) -> bool {
    let d = unsigned_digits(t);
    d.len() > 0 && all_digits(d)
}

pub open spec fn pow10(n: nat) -> nat
    decreases n,
{
    if n == 0 {
        1
    } else {
        10 * pow10((n - 1) as nat)
    }
}

/// What a digit at index `i` of the fractional part is worth per unit:
/// `FIXED_PRECISION / 10^(i+1)`, zero from the seventh digit on.
pub open spec fn digit_weight(i: nat) -> nat {
    FIXED_PRECISION as nat / pow10(i + 1)
}

/// The value of a fractional part in the fixed scale, digits past the sixth
/// counting for nothing.
pub open spec fn fraction_value(f: Seq<char>) -> nat
    decreases f.len(),
{
    if f.len() == 0 {
        0
    } else {
        (fraction_value(f.drop_last()) + digit_value(f.last()) * digit_weight(
            (f.len() - 1) as nat,
        )) as nat
    }
}

/// `k` is the index of the first `.` in `s`.
pub open spec fn is_first_dot(s: Seq<char>, k: int) -> bool {
    &&& 0 <= k < s.len()
    &&& s[k] == '.'
    &&& forall|j: int| 0 <= j < k ==> s[j] != '.'
}

/// `i` is the index of the first character of `f` that is not a digit.
pub open spec fn is_first_non_digit(f: Seq<char>, i: int) -> bool {
    &&& 0 <= i < f.len()
    &&& !is_digit(f[i])
    &&& all_digits(f.subrange(0, i))
}

/// What `fixed_u64_from_str_radix_10` gives for the text `s`.
pub open spec fn parse_fixed(s: Seq<char>) -> Result<u64, FixedU64Error> {
    if !exists|k: int| is_first_dot(s, k) {
        Err(FixedU64Error::MissingDelimiter)
    } else {
        let k = choose|k: int| is_first_dot(s, k);
        let int_text = s.subrange(0, k);
        let frac = s.subrange(k + 1, s.len() as int);
        let int_value = digits_value(unsigned_digits(int_text));
        if !is_unsigned_text(int_text) || int_value > u64::MAX {
            Err(FixedU64Error::IncorrectIntegerPart)
        } else if !all_digits(frac) {
            let i = choose|i: int| is_first_non_digit(frac, i);
            Err(FixedU64Error::IncorrectFractionalPart(i as usize, frac[i]))
        } else if int_value * FIXED_PRECISION + fraction_value(frac) > u64::MAX {
            Err(FixedU64Error::IncorrectIntegerPart)
        } else {
            Ok((int_value * FIXED_PRECISION + fraction_value(frac)) as u64)
        }
    }
}

proof fn lemma_wide_product(a: u64, b: u64)
    ensures
        0 <= a * b <= u128::MAX,
{
    assert(0 <= a * b <= u128::MAX) by (nonlinear_arith)
        requires
            a <= u64::MAX,
            b <= u64::MAX,
    ;
}

/// Scales `amount` by `numerator / denominator` through a 128-bit product.
pub fn proportional(amount: u64, numerator: u64, denominator: u64) -> (r: Result<u64, LpPoolError>)
    ensures
        r == proportional_spec(amount, numerator, denominator),
{
    if denominator == 0 {
        return Ok(amount);
    }
    proof {
        lemma_wide_product(amount, numerator);
    }
    let q: u128 = (amount as u128) * (numerator as u128) / (denominator as u128);
    if q > u64::MAX as u128 {
        Err(LpPoolError::CalculationError)
    } else {
        Ok(q as u64)
    }
}

/// The fixed-point product of two amounts, rounded down.
pub fn multiply(a: u64, b: u64) -> (r: Result<u64, LpPoolError>)
    ensures
        r == multiply_spec(a, b),
{
    proof {
        lemma_wide_product(a, b);
    }
    let q: u128 = (a as u128) * (b as u128) / (FIXED_PRECISION as u128);
    if q > u64::MAX as u128 {
        Err(LpPoolError::CalculationError)
    } else {
        Ok(q as u64)
    }
}

proof fn lemma_first_dot_unique(s: Seq<char>, k: int, m: int)
    requires
        is_first_dot(s, k),
        is_first_dot(s, m),
    ensures
        k == m,
{
    if k < m {
        assert(s[k] != '.');
    } else if m < k {
        assert(s[m] != '.');
    }
}

proof fn lemma_first_non_digit_unique(f: Seq<char>, i: int, j: int)
    requires
        is_first_non_digit(f, i),
        is_first_non_digit(f, j),
    ensures
        i == j,
{
    if i < j {
        assert(f.subrange(0, j)[i] == f[i]);
    } else if j < i {
        assert(f.subrange(0, i)[j] == f[j]);
    }
}

/// A prefix of a digit string never spells a larger number than the whole.
proof fn lemma_digits_prefix_le(t: Seq<char>, i: int)
    requires
        all_digits(t),
        0 <= i <= t.len(),
    ensures
        digits_value(t.subrange(0, i)) <= digits_value(t),
    decreases t.len(),
{
    if i < t.len() {
        let u = t.drop_last();
        assert(all_digits(u)) by {
            assert forall|j: int| 0 <= j < u.len() implies is_digit(#[trigger] u[j]) by {
                assert(u[j] == t[j]);
            }
        }
        lemma_digits_prefix_le(u, i);
        assert(u.subrange(0, i) =~= t.subrange(0, i));
        assert(is_digit(t[t.len() - 1]));
    } else {
        assert(t.subrange(0, i) =~= t);
    }
}

proof fn lemma_pow10_positive(n: nat)
    ensures
        pow10(n) > 0,
    decreases n,
{
    if n > 0 {
        lemma_pow10_positive((n - 1) as nat);
    }
}

proof fn lemma_digit_weight_step(i: nat)
    ensures
        digit_weight(i + 1) == digit_weight(i) / 10,
{
    lemma_pow10_positive(i + 1);
    assert(pow10(i + 2) == 10 * pow10(i + 1));
    vstd::arithmetic::div_mod::lemma_div_denominator(
        FIXED_PRECISION as int,
        pow10(i + 1) as int,
        10,
    );
}

/// The index of the first `.` in `s`, if there is one.
fn find_dot(s: &str, len: usize) -> (r: Option<usize>)
    requires
        len == s@.len(),
    ensures
        match r {
            Some(k) => is_first_dot(s@, k as int),
            None => !exists|k: int| is_first_dot(s@, k),
        },
{
    let mut i: usize = 0;
    while i < len
        invariant
            len == s@.len(),
            i <= len,
            forall|j: int| 0 <= j < i ==> s@[j] != '.',
        decreases len - i,
    {
        if s.get_char(i) == '.' {
            return Some(i);
        }
        i += 1;
    }
    assert forall|k: int| !is_first_dot(s@, k) by {
        if 0 <= k < s@.len() {
            assert(s@[k] != '.');
        }
    }
    None
}

/// The value of the integer text `s[..end]`, or `None` when it is not a
/// base-10 number that fits in 64 bits.
fn parse_integer_part(s: &str, end: usize) -> (r: Option<u64>)
    requires
        end <= s@.len(),
    ensures
        ({
            let t = s@.subrange(0, end as int);
            match r {
                Some(v) => is_unsigned_text(t) && v == digits_value(unsigned_digits(t)),
                None => !is_unsigned_text(t) || digits_value(unsigned_digits(t)) > u64::MAX,
            }
        }),
{
    let ghost t = s@.subrange(0, end as int);
    let mut start: usize = 0;
    if end > 0 && s.get_char(0) == '+' {
        start = 1;
    }
    let ghost d = s@.subrange(start as int, end as int);
    assert(unsigned_digits(t) =~= d);
    if start == end {
        return None;
    }
    let mut value: u64 = 0;
    let mut j: usize = start;
    assert(d.subrange(0, 0).len() == 0);
    while j < end
        invariant
            end <= s@.len(),
            start <= j <= end,
            d == s@.subrange(start as int, end as int),
            t == s@.subrange(0, end as int),
            unsigned_digits(t) == d,
            value == digits_value(d.subrange(0, j - start)),
            all_digits(d.subrange(0, j - start)),
        decreases end - j,
    {
        let c = s.get_char(j);
        assert(d[j - start] == c);
        if (c as u32) < ('0' as u32) || (c as u32) > ('9' as u32) {
            assert(!is_digit(d[j - start]));
            return None;
        }
        let next: u128 = value as u128 * 10 + (c as u32 - '0' as u32) as u128;
        let ghost p = d.subrange(0, j + 1 - start);
        assert(p.drop_last() =~= d.subrange(0, j - start));
        assert(p.last() == c);
        assert(next == digits_value(p));
        if next > u64::MAX as u128 {
            proof {
                if all_digits(d) {
                    lemma_digits_prefix_le(d, j + 1 - start);
                }
            }
            return None;
        }
        value = next as u64;
        j += 1;
        assert(all_digits(p)) by {
            assert forall|q: int| 0 <= q < p.len() implies is_digit(#[trigger] p[q]) by {
                if q < p.len() - 1 {
                    assert(p[q] == d.subrange(0, j - 1 - start)[q]);
                }
            }
        }
    }
    assert(d.subrange(0, end - start) =~= d);
    Some(value)
}

/// The value of the fractional text `s[start..len]` in the fixed scale, or the
/// first character in it that is not a digit.
fn parse_fraction(s: &str, start: usize, len: usize) -> (r: Result<u64, FixedU64Error>)
    requires
        start <= len == s@.len(),
    ensures
        ({
            let f = s@.subrange(start as int, len as int);
            match r {
                Ok(v) => all_digits(f) && v == fraction_value(f) && v <= FIXED_PRECISION,
                Err(e) => !all_digits(f) && exists|i: int|
                    is_first_non_digit(f, i) && e == FixedU64Error::IncorrectFractionalPart(
                        i as usize,
                        f[i],
                    ),
            }
        }),
{
    let ghost f = s@.subrange(start as int, len as int);
    let n = len - start;
    let mut value: u64 = 0;
    let mut weight: u64 = 100_000;
    let mut i: usize = 0;
    assert(pow10(0) == 1);
    assert(pow10(1) == 10);
    assert(digit_weight(0) == 100_000) by {
        assert(pow10((0 + 1) as nat) == 10);
        assert(FIXED_PRECISION as nat / 10 == 100_000);
    }
    assert(f.subrange(0, 0).len() == 0);
    while i < n
        invariant
            start <= len == s@.len(),
            n == len - start,
            f == s@.subrange(start as int, len as int),
            i <= n,
            value == fraction_value(f.subrange(0, i as int)),
            weight == digit_weight(i as nat),
            value + 10 * weight <= FIXED_PRECISION,
            all_digits(f.subrange(0, i as int)),
        decreases n - i,
    {
        let c = s.get_char(start + i);
        assert(f[i as int] == c);
        if (c as u32) < ('0' as u32) || (c as u32) > ('9' as u32) {
            assert(is_first_non_digit(f, i as int));
            return Err(FixedU64Error::IncorrectFractionalPart(i, c));
        }
        let d: u64 = (c as u32 - '0' as u32) as u64;
        assert(d * weight <= 9 * weight) by (nonlinear_arith)
            requires
                d <= 9,
        ;
        let ghost p = f.subrange(0, i + 1);
        assert(p.drop_last() =~= f.subrange(0, i as int));
        assert(p.last() == c);
        proof {
            lemma_digit_weight_step(i as nat);
        }
        value = value + d * weight;
        weight = weight / 10;
        i += 1;
        assert(all_digits(p)) by {
            assert forall|q: int| 0 <= q < p.len() implies is_digit(#[trigger] p[q]) by {
                if q < p.len() - 1 {
                    assert(p[q] == f.subrange(0, i - 1)[q]);
                }
            }
        }
    }
    assert(f.subrange(0, n as int) =~= f);
    Ok(value)
}

/// Reads a decimal text `"<integer>.<fraction>"` as an amount in the fixed
/// scale. Fractional digits past the sixth are dropped.
pub fn fixed_u64_from_str_radix_10(text: &str) -> (r: Result<u64, FixedU64Error>)
    ensures
        r == parse_fixed(text@),
{
    let len = text.unicode_len();
    let k = match find_dot(text, len) {
        Some(k) => k,
        None => return Err(FixedU64Error::MissingDelimiter),
    };
    proof {
        let c = choose|c: int| is_first_dot(text@, c);
        lemma_first_dot_unique(text@, c, k as int);
    }
    let int_value = match parse_integer_part(text, k) {
        Some(v) => v,
        None => return Err(FixedU64Error::IncorrectIntegerPart),
    };
    let frac_value = match parse_fraction(text, k + 1, len) {
        Ok(v) => v,
        Err(e) => {
            proof {
                let f = text@.subrange(k + 1, len as int);
                let i = choose|i: int| is_first_non_digit(f, i) && e == FixedU64Error::IncorrectFractionalPart(i as usize, f[i]);
                let c = choose|c: int| is_first_non_digit(f, c);
                lemma_first_non_digit_unique(f, c, i);
            }
            return Err(e);
        },
    };
    assert(int_value * FIXED_PRECISION <= u64::MAX * FIXED_PRECISION) by (nonlinear_arith)
        requires
            int_value <= u64::MAX,
    ;
    let total: u128 = int_value as u128 * FIXED_PRECISION as u128 + frac_value as u128;
    if total > u64::MAX as u128 {
        return Err(FixedU64Error::IncorrectIntegerPart);
    }
    Ok(total as u64)
}

/// `t` is the base-10 text of `n`: digits only, without leading zeros, and a
/// single `0` for zero.
pub open spec fn is_decimal_text(t: Seq<char>, n: nat) -> bool {
    &&& t.len() > 0
    &&& all_digits(t)
    &&& digits_value(t) == n
    &&& t[0] == '0' ==> t.len() == 1
}

/// `t` is `"<integer>.<remainder>"` for `val`: the whole units, a `.`, and the
/// remainder modulo `FIXED_PRECISION`, each in base 10 without padding.
pub open spec fn is_fixed_text(t: Seq<char>, val: u64) -> bool {
    exists|k: int|
        {
            &&& 0 <= k < t.len()
            &&& t[k] == '.'
            &&& is_decimal_text(t.subrange(0, k), val as nat / FIXED_PRECISION as nat)
            &&& is_decimal_text(t.subrange(k + 1, t.len() as int), val as nat % FIXED_PRECISION as nat)
        }
}

/// Relies on `u64`'s `Display` through `ToString::to_string`: the base-10
/// digits of `n`, with no sign, padding or leading zeros.
#[verifier::external_body]
fn decimal_string(n: u64) -> (r: String)
    ensures
        is_decimal_text(r@, n as nat),
{
    n.to_string()
}

/// Renders an amount as `"<integer>.<remainder>"`. The remainder is not padded
/// to six digits: `9.009` comes out as `9.9000`.
pub fn write_fixed_u64(val: u64) -> (r: String)
    ensures
        is_fixed_text(r@, val),
{
    let whole = decimal_string(val / FIXED_PRECISION);
    let rest = decimal_string(val % FIXED_PRECISION);
    let with_dot = whole.concat(".");
    let r = with_dot.concat(rest.as_str());
    proof {
        reveal_strlit(".");
        let k = whole@.len() as int;
        assert(r@.subrange(0, k) =~= whole@);
        assert(r@.subrange(k + 1, r@.len() as int) =~= rest@);
        assert(r@[k] == '.');
    }
    r
}

/// Multiplying by one whole unit (the amount that reads as `1.`) gives back the
/// other factor, on either side.
pub proof fn lemma_multiply_identity(x: u64)
    ensures
        multiply_spec(FIXED_PRECISION, x) == Ok::<u64, LpPoolError>(x),
        multiply_spec(x, FIXED_PRECISION) == Ok::<u64, LpPoolError>(x),
{
    vstd::arithmetic::div_mod::lemma_div_multiples_vanish(x as int, FIXED_PRECISION as int);
    assert(x * FIXED_PRECISION == FIXED_PRECISION * x) by (nonlinear_arith);
}

/// With a zero denominator `proportional` returns the amount unchanged.
pub proof fn lemma_proportional_zero_denominator(amount: u64, numerator: u64)
    ensures
        proportional_spec(amount, numerator, 0) == Ok::<u64, LpPoolError>(amount),
{
}

/// The product of the two largest amounts does not fit, and is reported.
pub proof fn lemma_multiply_overflow()
    ensures
        multiply_spec(u64::MAX, u64::MAX) == Err::<u64, LpPoolError>(LpPoolError::CalculationError),
{
    let m = u64::MAX as int;
    assert(m * m >= (m + 1) * FIXED_PRECISION) by (nonlinear_arith)
        requires
            m == u64::MAX,
    ;
    lemma_quotient_exceeds(m * m, m + 1, FIXED_PRECISION as int);
}

/// Scaling the largest amount by `u64::MAX / denominator` overflows for every
/// denominator from one up to `u64::MAX - 1`, and is reported.
pub proof fn lemma_proportional_overflow(denominator: u64)
    requires
        0 < denominator < u64::MAX,
    ensures
        proportional_spec(u64::MAX, u64::MAX, denominator) == Err::<u64, LpPoolError>(
            LpPoolError::CalculationError,
        ),
{
    let m = u64::MAX as int;
    let d = denominator as int;
    assert(m * m >= (m + 1) * d) by (nonlinear_arith)
        requires
            m == u64::MAX,
            0 < d <= m - 1,
    ;
    lemma_quotient_exceeds(m * m, m + 1, d);
}

proof fn lemma_quotient_exceeds(x: int, q: int, d: int)
    requires
        0 < d,
        0 <= q,
        x >= q * d,
    ensures
        x / d >= q,
{
    vstd::arithmetic::div_mod::lemma_div_is_ordered(q * d, x, d);
    vstd::arithmetic::div_mod::lemma_div_multiples_vanish(q, d);
    assert(q * d == d * q) by (nonlinear_arith);
}

proof fn lemma_pow10_small()
    ensures
        pow10(0) == 1,
        pow10(1) == 10,
        pow10(2) == 100,
        pow10(3) == 1000,
        pow10(4) == 10000,
        pow10(5) == 100000,
        pow10(6) == 1000000,
        pow10(7) == 10000000,
{
    assert(pow10(0) == 1);
    assert(pow10(1) == 10);
    assert(pow10(2) == 100);
    assert(pow10(3) == 1000);
    assert(pow10(4) == 10000);
    assert(pow10(5) == 100000);
    assert(pow10(6) == 1000000);
    assert(pow10(7) == 10000000);
}

proof fn lemma_pow10_monotone(a: nat, b: nat)
    requires
        a <= b,
    ensures
        pow10(a) <= pow10(b),
    decreases b - a,
{
    if a < b {
        lemma_pow10_monotone(a, (b - 1) as nat);
        lemma_pow10_positive((b - 1) as nat);
    }
}

proof fn lemma_all_digits_drop_last(t: Seq<char>)
    requires
        all_digits(t),
        t.len() > 0,
    ensures
        all_digits(t.drop_last()),
        is_digit(t.last()),
{
    assert forall|j: int| 0 <= j < t.drop_last().len() implies is_digit(#[trigger] t.drop_last()[j]) by {
        assert(t.drop_last()[j] == t[j]);
    }
    assert(is_digit(t[t.len() - 1]));
}

/// A digit string of length `n` spells less than `10^n`, and at least
/// `10^(n-1)` when it does not begin with `0`.
proof fn lemma_digits_bounds(t: Seq<char>)
    requires
        all_digits(t),
    ensures
        digits_value(t) < pow10(t.len()),
        t.len() > 0 && t[0] != '0' ==> digits_value(t) >= pow10((t.len() - 1) as nat),
    decreases t.len(),
{
    if t.len() > 0 {
        let u = t.drop_last();
        lemma_all_digits_drop_last(t);
        lemma_digits_bounds(u);
        let d = digit_value(t.last());
        assert(0 <= d <= 9);
        assert(digits_value(t) == digits_value(u) * 10 + d);
        assert(pow10(t.len()) == 10 * pow10(u.len()));
        if t.len() == 1 {
            assert(is_digit(t[0]));
            assert(u.len() == 0);
            assert(pow10(0) == 1);
            assert(t.last() == t[0]);
            vstd::utf8::char_u32_cast(t[0], t[0] as u32);
            vstd::utf8::char_u32_cast('0', '0' as u32);
        } else {
            assert(u[0] == t[0]);
            assert(pow10((t.len() - 1) as nat) == 10 * pow10((u.len() - 1) as nat));
        }
    }
}

/// A digit's weight at each of the first seven places of a fraction.
proof fn lemma_digit_weight_small()
    ensures
        digit_weight(0) == 100000,
        digit_weight(1) == 10000,
        digit_weight(2) == 1000,
        digit_weight(3) == 100,
        digit_weight(4) == 10,
        digit_weight(5) == 1,
        digit_weight(6) == 0,
{
    lemma_pow10_small();
    assert(pow10((0 + 1) as nat) == 10);
    assert(pow10((1 + 1) as nat) == 100);
    assert(pow10((2 + 1) as nat) == 1000);
    assert(pow10((3 + 1) as nat) == 10000);
    assert(pow10((4 + 1) as nat) == 100000);
    assert(pow10((5 + 1) as nat) == 1000000);
    assert(pow10((6 + 1) as nat) == 10000000);
}

/// For six digits or fewer the fraction's value is the number its digits spell,
/// shifted into the sixth decimal place.
proof fn lemma_fraction_digits(f: Seq<char>)
    requires
        all_digits(f),
        f.len() <= 6,
    ensures
        fraction_value(f) == digits_value(f) * pow10((6 - f.len()) as nat),
    decreases f.len(),
{
    lemma_pow10_small();
    lemma_digit_weight_small();
    if f.len() > 0 {
        let u = f.drop_last();
        lemma_all_digits_drop_last(f);
        lemma_fraction_digits(u);
        let n = f.len();
        let dv = digits_value(u) as int;
        let d = digit_value(f.last());
        assert(fraction_value(f) == dv * pow10((7 - n) as nat) + d * digit_weight((n - 1) as nat));
        assert(digits_value(f) == dv * 10 + d);
        if n == 1 {
            assert(dv * pow10(6) + d * digit_weight(0) == (dv * 10 + d) * pow10(5));
        } else if n == 2 {
            assert(dv * pow10(5) + d * digit_weight(1) == (dv * 10 + d) * pow10(4));
        } else if n == 3 {
            assert(dv * pow10(4) + d * digit_weight(2) == (dv * 10 + d) * pow10(3));
        } else if n == 4 {
            assert(dv * pow10(3) + d * digit_weight(3) == (dv * 10 + d) * pow10(2));
        } else if n == 5 {
            assert(dv * pow10(2) + d * digit_weight(4) == (dv * 10 + d) * pow10(1));
        } else {
            assert(dv * pow10(1) + d * digit_weight(5) == (dv * 10 + d) * pow10(0));
        }
        assert(fraction_value(f) == digits_value(f) * pow10((6 - n) as nat));
    } else {
        assert(fraction_value(f) == 0);
        assert(digits_value(f) == 0);
        assert(0 * pow10(6) == 0);
    }
}

/// Digits past the sixth add nothing to a fraction's value.
proof fn lemma_fraction_truncate(f: Seq<char>)
    requires
        all_digits(f),
        f.len() >= 6,
    ensures
        fraction_value(f) == fraction_value(f.subrange(0, 6)),
    decreases f.len(),
{
    if f.len() == 6 {
        assert(f.subrange(0, 6) =~= f);
    } else {
        let u = f.drop_last();
        lemma_all_digits_drop_last(f);
        lemma_fraction_truncate(u);
        assert(u.subrange(0, 6) =~= f.subrange(0, 6));
        lemma_pow10_small();
        lemma_pow10_monotone(7, f.len());
        let i = (f.len() - 1) as nat;
        assert(i + 1 == f.len());
        vstd::arithmetic::div_mod::lemma_basic_div(FIXED_PRECISION as int, pow10(i + 1) as int);
        assert(digit_weight(i) == 0);
    }
}

/// Fractional digits past the sixth are dropped: cutting a text whose
/// fractional part is all digits down to six of them reads the same.
pub proof fn lemma_parse_truncates(s: Seq<char>, k: int)
    requires
        is_first_dot(s, k),
        all_digits(s.subrange(k + 1, s.len() as int)),
        s.len() - (k + 1) >= 6,
    ensures
        parse_fixed(s) == parse_fixed(s.subrange(0, k + 7)),
{
    let u = s.subrange(0, k + 7);
    let f = s.subrange(k + 1, s.len() as int);
    assert(is_first_dot(u, k));
    let ks = choose|c: int| is_first_dot(s, c);
    lemma_first_dot_unique(s, ks, k);
    let ku = choose|c: int| is_first_dot(u, c);
    lemma_first_dot_unique(u, ku, k);
    assert(u.subrange(0, k) =~= s.subrange(0, k));
    assert(u.subrange(k + 1, u.len() as int) =~= f.subrange(0, 6));
    lemma_fraction_truncate(f);
    assert(all_digits(f.subrange(0, 6))) by {
        assert forall|j: int| 0 <= j < 6 implies is_digit(#[trigger] f.subrange(0, 6)[j]) by {
            assert(f.subrange(0, 6)[j] == f[j]);
        }
    }
}

/// The value of a fraction of six digits or fewer is below one whole unit; it
/// is at least a tenth when the fraction does not begin with `0`, and zero when
/// its digits spell zero.
proof fn lemma_fraction_range(f: Seq<char>)
    requires
        all_digits(f),
        f.len() <= 6,
    ensures
        fraction_value(f) < FIXED_PRECISION,
        f.len() > 0 && f[0] != '0' ==> fraction_value(f) >= FIXED_PRECISION / 10,
        digits_value(f) == 0 ==> fraction_value(f) == 0,
{
    lemma_fraction_digits(f);
    lemma_digits_bounds(f);
    lemma_pow10_small();
    let n = f.len();
    let dv = digits_value(f) as int;
    if n == 0 {
        assert(fraction_value(f) == dv * 1000000);
    } else if n == 1 {
        assert(fraction_value(f) == dv * 100000);
    } else if n == 2 {
        assert(fraction_value(f) == dv * 10000);
    } else if n == 3 {
        assert(fraction_value(f) == dv * 1000);
    } else if n == 4 {
        assert(fraction_value(f) == dv * 100);
    } else if n == 5 {
        assert(fraction_value(f) == dv * 10);
    } else {
        assert(fraction_value(f) == dv * 1);
    }
}

/// A base-10 text of a remainder that is zero or at least a tenth of a unit,
/// read as a fraction, gives that remainder back.
proof fn lemma_remainder_text(b: Seq<char>, r: nat)
    requires
        is_decimal_text(b, r),
        r < FIXED_PRECISION,
        r == 0 || r >= FIXED_PRECISION / 10,
    ensures
        fraction_value(b) == r,
{
    lemma_digits_bounds(b);
    lemma_pow10_small();
    if b[0] == '0' {
        assert(b.len() == 1);
        assert(r < 10);
        assert(r == 0);
    } else {
        if b.len() > 6 {
            lemma_pow10_monotone(6, (b.len() - 1) as nat);
        }
        if b.len() < 6 {
            lemma_pow10_monotone(b.len(), 5);
        }
        assert(b.len() == 6);
    }
    lemma_fraction_digits(b);
    if b[0] == '0' {
        assert(fraction_value(b) == 0 * pow10(5));
    } else {
        assert(fraction_value(b) == r * pow10(0));
    }
}

/// Reading back what `write_fixed_u64` writes gives the amount that was read,
/// for a text whose fractional part has at most six digits and does not begin
/// with `0` unless its digits spell zero. (`"0.05"` is written `"0.50000"`,
/// which reads as another amount.)
pub proof fn lemma_round_trip(s: Seq<char>, k: int, t: Seq<char>)
    requires
        is_first_dot(s, k),
        parse_fixed(s) is Ok,
        s.len() - (k + 1) <= 6,
        ({
            let f = s.subrange(k + 1, s.len() as int);
            f.len() == 0 || f[0] != '0' || digits_value(f) == 0
        }),
        is_fixed_text(t, parse_fixed(s)->Ok_0),
    ensures
        parse_fixed(t) == parse_fixed(s),
{
    let ks = choose|c: int| is_first_dot(s, c);
    lemma_first_dot_unique(s, ks, k);
    let f = s.subrange(k + 1, s.len() as int);
    let iv = digits_value(unsigned_digits(s.subrange(0, k)));
    let v = parse_fixed(s)->Ok_0;
    lemma_fraction_range(f);
    let r = fraction_value(f);
    assert(v == iv * FIXED_PRECISION + r);
    vstd::arithmetic::div_mod::lemma_fundamental_div_mod_converse(
        v as int,
        FIXED_PRECISION as int,
        iv as int,
        r as int,
    );
    let k2 = choose|k2: int|
        {
            &&& 0 <= k2 < t.len()
            &&& t[k2] == '.'
            &&& is_decimal_text(t.subrange(0, k2), v as nat / FIXED_PRECISION as nat)
            &&& is_decimal_text(t.subrange(k2 + 1, t.len() as int), v as nat % FIXED_PRECISION as nat)
        };
    let a = t.subrange(0, k2);
    let b = t.subrange(k2 + 1, t.len() as int);
    assert(!is_digit('.'));
    assert(!is_digit('+'));
    assert(is_first_dot(t, k2)) by {
        assert forall|j: int| 0 <= j < k2 implies t[j] != '.' by {
            assert(a[j] == t[j]);
            assert(is_digit(a[j]));
        }
    }
    let kt = choose|c: int| is_first_dot(t, c);
    lemma_first_dot_unique(t, kt, k2);
    assert(is_digit(a[0]));
    assert(unsigned_digits(a) == a);
    lemma_remainder_text(b, r);
}

} // verus!
