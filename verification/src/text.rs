//! Character sequences: splitting at a separator and reading numbers.

use crate::ratio::{fits, in_range, quot, Ratio};
use vstd::prelude::*;

verus! {

/// The characters of a string, in order.
pub fn chars_of(s: &str) -> (v: Vec<char>)
    ensures
        v@ == s@,
{
    let mut v: Vec<char> = Vec::new();
    for c in it: s.chars()
        invariant
            v@ == it.seq().take(it.index() as int),
            it.seq() == s@,
    {
        v.push(c);
    }
    v
}

/// The characters of `s` from `from` up to `to`.
pub fn subrange(s: &Vec<char>, from: usize, to: usize) -> (v: Vec<char>)
    requires
        from <= to <= s.len(),
    ensures
        v@ == s@.subrange(from as int, to as int),
{
    let mut v: Vec<char> = Vec::new();
    let mut i: usize = from;
    while i < to
        invariant
            from <= i <= to <= s.len(),
            v@ == s@.subrange(from as int, i as int),
        decreases to - i,
    {
        v.push(s[i]);
        i += 1;
    }
    v
}

/// The pieces of `s` between the occurrences of `sep`. There is one piece
/// more than there are separators, so the empty sequence splits into one
/// empty piece.
pub open spec fn split(s: Seq<char>, sep: char) -> Seq<Seq<char>>
    decreases s.len(),
{
    if s.len() == 0 {
        seq![Seq::<char>::empty()]
    } else {
        let before = split(s.drop_last(), sep);
        if s.last() == sep {
            before.push(Seq::<char>::empty())
        } else {
            before.drop_last().push(before.last().push(s.last()))
        }
    }
}

/// The character sequences that a vector of vectors holds.
pub open spec fn views(v: Seq<Vec<char>>) -> Seq<Seq<char>> {
    v.map_values(|p: Vec<char>| p@)
}

/// The pieces with `sep` between each two neighbours.
pub open spec fn join(pieces: Seq<Seq<char>>, sep: char) -> Seq<char>
    decreases pieces.len(),
{
    if pieces.len() == 0 {
        Seq::<char>::empty()
    } else if pieces.len() == 1 {
        pieces[0]
    } else {
        join(pieces.drop_last(), sep).push(sep) + pieces.last()
    }
}

/// Splitting loses nothing: no piece holds the separator, and the pieces
/// joined by the separator are the sequence that was split.
pub proof fn lemma_split_join(s: Seq<char>, sep: char)
    ensures
        split(s, sep).len() >= 1,
        forall|i: int, j: int|
            0 <= i < split(s, sep).len() && 0 <= j < split(s, sep)[i].len() ==> split(
                s,
                sep,
            )[i][j] != sep,
        join(split(s, sep), sep) == s,
    decreases s.len(),
{
    if s.len() == 0 {
    } else {
        let t = s.drop_last();
        lemma_split_join(t, sep);
        let before = split(t, sep);
        if s.last() == sep {
            let now = before.push(Seq::<char>::empty());
            assert(now.drop_last() == before);
            assert(join(now, sep) == join(before, sep).push(sep) + Seq::<char>::empty());
            assert(join(now, sep) == s);
        } else {
            let now = before.drop_last().push(before.last().push(s.last()));
            if before.len() == 1 {
                assert(join(before, sep) == before[0]);
                assert(now[0] == before[0].push(s.last()));
                assert(join(now, sep) == s);
            } else {
                assert(now.drop_last() == before.drop_last());
                assert(join(now, sep) == join(before.drop_last(), sep).push(sep) + before.last().push(
                    s.last(),
                ));
                assert(join(before, sep) == join(before.drop_last(), sep).push(sep)
                    + before.last());
                assert(join(now, sep) == join(before, sep).push(s.last()));
                assert(join(now, sep) == s);
            }
        }
    }
}

/// What has no separator in it is one piece.
pub proof fn lemma_split_single(s: Seq<char>, sep: char)
    requires
        split(s, sep).len() == 1,
    ensures
        split(s, sep) == seq![s],
{
    lemma_split_join(s, sep);
    assert(split(s, sep) =~= seq![s]);
}

/// Splits `s` at every `sep`.
pub fn split_chars(s: &Vec<char>, sep: char) -> (pieces: Vec<Vec<char>>)
    ensures
        views(pieces@) == split(s@, sep),
        pieces@.len() >= 1,
{
    let mut pieces: Vec<Vec<char>> = Vec::new();
    let mut current: Vec<char> = Vec::new();
    let mut i: usize = 0;
    while i < s.len()
        invariant
            i <= s.len(),
            views(pieces@).push(current@) == split(s@.take(i as int), sep),
        decreases s.len() - i,
    {
        let c = s[i];
        proof {
            let now = s@.take(i + 1);
            assert(now.drop_last() == s@.take(i as int));
            assert(now.last() == c);
        }
        if c == sep {
            let ghost before = views(pieces@);
            let ghost piece = current@;
            pieces.push(current);
            current = Vec::new();
            assert(views(pieces@) == before.push(piece));
        } else {
            let ghost piece = current@;
            current.push(c);
            assert(views(pieces@).push(piece).drop_last() == views(pieces@));
        }
        i += 1;
    }
    let ghost before = views(pieces@);
    let ghost piece = current@;
    pieces.push(current);
    assert(views(pieces@) == before.push(piece));
    assert(s@.take(s.len() as int) == s@);
    pieces
}

/// Why a number could not be read.
#[derive(Clone, Copy, Debug, PartialEq, Eq, Structural)]
pub enum NumberError {
    /// The text is not a number in the accepted notation.
    Malformed,
    /// The text is a number that is too large or too long to hold.
    OutOfRange,
}

/// Whether `c` is one of the ten decimal digits.
pub open spec fn is_digit(c: char) -> bool {
    '0' <= c && c <= '9'
}

/// The number that a decimal digit stands for.
pub open spec fn digit_value(c: char) -> nat {
    (c as int - '0' as int) as nat
}

/// Whether every character is a decimal digit.
pub open spec fn all_digits(s: Seq<char>) -> bool {
    forall|i: int| 0 <= i < s.len() ==> is_digit(#[trigger] s[i])
}

/// The number read so far, `acc`, continued by the digits of `s`.
pub open spec fn extend(acc: nat, s: Seq<char>) -> nat
    decreases s.len(),
{
    if s.len() == 0 {
        acc
    } else {
        10 * extend(acc, s.drop_last()) + digit_value(s.last())
    }
}

/// The number that a sequence of decimal digits denotes.
pub open spec fn digits_value(s: Seq<char>) -> nat {
    extend(0, s)
}

/// Ten to the power `k`.
pub open spec fn pow10(k: nat) -> nat
    decreases k,
{
    if k == 0 {
        1
    } else {
        10 * pow10((k - 1) as nat)
    }
}

/// Reading more digits never makes the number smaller.
pub proof fn lemma_extend_grows(acc: nat, s: Seq<char>, i: int)
    requires
        0 <= i <= s.len(),
    ensures
        extend(acc, s.take(i)) <= extend(acc, s),
    decreases s.len(),
{
    if i == s.len() {
        assert(s.take(i) == s);
    } else {
        lemma_extend_grows(acc, s.drop_last(), i);
        assert(s.drop_last().take(i) == s.take(i));
    }
}

/// Whether every character of `s` is a decimal digit.
pub fn is_all_digits(s: &Vec<char>) -> (r: bool)
    ensures
        r == all_digits(s@),
{
    let mut i: usize = 0;
    while i < s.len()
        invariant
            i <= s.len(),
            all_digits(s@.take(i as int)),
        decreases s.len() - i,
    {
        let c = s[i];
        if !(c >= '0' && c <= '9') {
            assert(!is_digit(s@[i as int]));
            return false;
        }
        proof {
            assert forall|j: int| 0 <= j < i + 1 implies is_digit(#[trigger] s@.take(i + 1)[j]) by {
                if j < i {
                    assert(s@.take(i as int)[j] == s@[j]);
                }
            }
        }
        i += 1;
    }
    assert(s@.take(s.len() as int) == s@);
    true
}

/// Continues the number `acc` by the digits of `s`, as long as it stays
/// within `limit`.
pub fn extend_number(acc: u128, s: &Vec<char>, limit: u128) -> (r: Option<u128>)
    requires
        all_digits(s@),
        acc <= limit <= 0xffff_ffff_ffff_ffff_ffff_ffff,
    ensures
        r is Some <==> extend(acc as nat, s@) <= limit,
        r matches Some(x) ==> x == extend(acc as nat, s@),
{
    let mut value: u128 = acc;
    let mut i: usize = 0;
    while i < s.len()
        invariant
            i <= s.len(),
            all_digits(s@),
            value <= limit <= 0xffff_ffff_ffff_ffff_ffff_ffff,
            value == extend(acc as nat, s@.take(i as int)),
        decreases s.len() - i,
    {
        let c = s[i];
        assert(is_digit(s@[i as int]));
        let d: u128 = (c as u32 - '0' as u32) as u128;
        let next: u128 = value * 10 + d;
        proof {
            let now = s@.take(i + 1);
            assert(now.drop_last() == s@.take(i as int));
            assert(now.last() == c);
            assert(next == extend(acc as nat, now));
            lemma_extend_grows(acc as nat, s@, i + 1);
        }
        if next > limit {
            return None;
        }
        value = next;
        i += 1;
    }
    assert(s@.take(s.len() as int) == s@);
    Some(value)
}

/// The text of a number without its leading `+` or `-`, if it has one.
pub open spec fn unsigned_part(s: Seq<char>) -> Seq<char> {
    if s.len() > 0 && (s[0] == '+' || s[0] == '-') {
        s.subrange(1, s.len() as int)
    } else {
        s
    }
}

/// The text with every `E` written as `e`.
pub open spec fn lowered(s: Seq<char>) -> Seq<char> {
    s.map_values(|c: char| if c == 'E' { 'e' } else { c })
}

/// The unsigned text of a number before and after its exponent mark, `e` or `E`.
pub open spec fn exponent_parts(s: Seq<char>) -> Seq<Seq<char>> {
    split(lowered(unsigned_part(s)), 'e')
}

/// The digits and the decimal point of a number, without sign and exponent.
pub open spec fn significand(s: Seq<char>) -> Seq<char> {
    exponent_parts(s)[0]
}

/// The digits before the decimal point.
pub open spec fn integer_digits(s: Seq<char>) -> Seq<char> {
    split(significand(s), '.')[0]
}

/// The digits after the decimal point; none where there is no point.
pub open spec fn fraction_digits(s: Seq<char>) -> Seq<char> {
    let parts = split(significand(s), '.');
    if parts.len() >= 2 {
        parts[1]
    } else {
        Seq::<char>::empty()
    }
}

/// The notation of a whole number: an optional sign, then one digit or more.
pub open spec fn is_integer(t: Seq<char>) -> bool {
    unsigned_part(t).len() >= 1 && all_digits(unsigned_part(t))
}

/// The number that the notation of a whole number denotes.
pub open spec fn integer_value(t: Seq<char>) -> int {
    if t.len() > 0 && t[0] == '-' {
        -(digits_value(unsigned_part(t)) as int)
    } else {
        digits_value(unsigned_part(t)) as int
    }
}

/// The exponent of ten that a number is written with; zero where it has none.
pub open spec fn exponent(s: Seq<char>) -> int {
    if exponent_parts(s).len() == 2 {
        integer_value(exponent_parts(s)[1])
    } else {
        0
    }
}

/// The notation of a decimal number: an optional sign, then digits with at
/// most one decimal point among them, and at least one digit; then, if
/// wanted, `e` or `E` and a whole number, the exponent of ten.
pub open spec fn is_decimal(s: Seq<char>) -> bool {
    &&& exponent_parts(s).len() <= 2
    &&& split(significand(s), '.').len() <= 2
    &&& all_digits(integer_digits(s))
    &&& all_digits(fraction_digits(s))
    &&& integer_digits(s).len() + fraction_digits(s).len() >= 1
    &&& exponent_parts(s).len() == 2 ==> is_integer(exponent_parts(s)[1])
}

/// The digits of a decimal number read as one integer, the point left out.
pub open spec fn mantissa(s: Seq<char>) -> nat {
    extend(digits_value(integer_digits(s)), fraction_digits(s))
}

/// By how many places the decimal point of the mantissa lies to the left:
/// the number of digits after the point, less the exponent.
pub open spec fn decimal_shift(s: Seq<char>) -> int {
    fraction_digits(s).len() - exponent(s)
}

/// The decimal numbers that are held exactly: the mantissa is at most
/// `i64::MAX`, the point lies at most 18 places to either side, and with the
/// point to the right the number itself is at most `i64::MAX`.
pub open spec fn decimal_in_range(s: Seq<char>) -> bool {
    &&& mantissa(s) <= i64::MAX
    &&& -18 <= decimal_shift(s) <= 18
    &&& decimal_shift(s) < 0 ==> mantissa(s) * pow10((-decimal_shift(s)) as nat) <= i64::MAX
}

/// The number that a decimal notation denotes: the mantissa with its point
/// moved by the shift, with the sign of the notation.
pub open spec fn decimal_value(s: Seq<char>) -> real {
    let size = if decimal_shift(s) >= 0 {
        quot(mantissa(s) as int, pow10(decimal_shift(s) as nat) as int)
    } else {
        (mantissa(s) * pow10((-decimal_shift(s)) as nat)) as real
    };
    if s.len() > 0 && s[0] == '-' {
        -size
    } else {
        size
    }
}

/// What reading a decimal number from `s` comes to.
pub open spec fn decimal_result(s: Seq<char>) -> Result<real, NumberError> {
    if !is_decimal(s) {
        Err(NumberError::Malformed)
    } else if !decimal_in_range(s) {
        Err(NumberError::OutOfRange)
    } else {
        Ok(decimal_value(s))
    }
}

/// What reading a natural number of at most `limit` from `s` comes to.
pub open spec fn natural_result(s: Seq<char>, limit: nat) -> Result<nat, NumberError> {
    if !is_natural(s) {
        Err(NumberError::Malformed)
    } else if natural_value(s) > limit {
        Err(NumberError::OutOfRange)
    } else {
        Ok(natural_value(s))
    }
}

/// The digits of a natural number, without the leading `+` if it has one.
pub open spec fn natural_digits(s: Seq<char>) -> Seq<char> {
    if s.len() > 0 && s[0] == '+' {
        s.subrange(1, s.len() as int)
    } else {
        s
    }
}

/// The notation of a natural number: an optional `+`, then one digit or more.
pub open spec fn is_natural(s: Seq<char>) -> bool {
    natural_digits(s).len() >= 1 && all_digits(natural_digits(s))
}

/// The number that the notation of a natural number denotes.
pub open spec fn natural_value(s: Seq<char>) -> nat {
    digits_value(natural_digits(s))
}

/// Ten to the power `k`, for `k` up to 18.
pub fn power_of_ten(k: usize) -> (p: i64)
    requires
        k <= 18,
    ensures
        p == pow10(k as nat),
        0 < p <= 1_000_000_000_000_000_000,
{
    let mut p: i64 = 1;
    let mut i: usize = 0;
    assert(pow10(18) == 1_000_000_000_000_000_000) by {
        reveal_with_fuel(pow10, 19);
    }
    while i < k
        invariant
            i <= k <= 18,
            p == pow10(i as nat),
            0 < p,
            p * pow10((18 - i) as nat) == 1_000_000_000_000_000_000,
        decreases k - i,
    {
        proof {
            let rest = pow10((18 - i) as nat);
            let less = pow10((18 - i - 1) as nat);
            assert(rest == 10 * less);
            assert(less >= 1) by {
                lemma_pow10_positive((18 - i - 1) as nat);
            }
            assert(p * 10 * less == 1_000_000_000_000_000_000 && p * 10
                <= 1_000_000_000_000_000_000) by (nonlinear_arith)
                requires
                    p * rest == 1_000_000_000_000_000_000,
                    rest == 10 * less,
                    less >= 1,
                    p > 0,
            ;
        }
        p = p * 10;
        i += 1;
    }
    proof {
        lemma_pow10_positive((18 - k) as nat);
        let rest = pow10((18 - k) as nat);
        assert(p <= 1_000_000_000_000_000_000) by (nonlinear_arith)
            requires
                p * rest == 1_000_000_000_000_000_000,
                rest >= 1,
                p > 0,
        ;
    }
    p
}

/// A power of ten is positive.
pub proof fn lemma_pow10_positive(k: nat)
    ensures
        pow10(k) >= 1,
    decreases k,
{
    if k > 0 {
        lemma_pow10_positive((k - 1) as nat);
    }
}

/// The characters with every `E` written as `e`.
fn lowered_chars(s: &Vec<char>) -> (v: Vec<char>)
    ensures
        v@ == lowered(s@),
{
    let mut v: Vec<char> = Vec::new();
    let mut i: usize = 0;
    while i < s.len()
        invariant
            i <= s.len(),
            v@ == lowered(s@.take(i as int)),
        decreases s.len() - i,
    {
        let c = s[i];
        let ghost before = v@;
        v.push(if c == 'E' {
            'e'
        } else {
            c
        });
        assert(v@ =~= lowered(s@.take(i + 1)));
        i += 1;
    }
    assert(s@.take(s.len() as int) == s@);
    v
}

/// The text without its leading sign, if it has one.
fn without_sign(s: &Vec<char>) -> (v: Vec<char>)
    ensures
        v@ == unsigned_part(s@),
{
    if s.len() > 0 && (s[0] == '+' || s[0] == '-') {
        subrange(s, 1, s.len())
    } else {
        subrange(s, 0, s.len())
    }
}

/// The fraction `mantissa / 10^places`, or `mantissa * 10^-places` where
/// `places` is below zero, with the sign asked for, if it can be held.
fn scaled_decimal(negative: bool, mantissa: u128, places: i128) -> (r: Option<Ratio>)
    requires
        mantissa <= i64::MAX,
        -18 <= places <= 18,
    ensures
        r is Some <==> (places < 0 ==> mantissa * pow10((-places) as nat) <= i64::MAX),
        r matches Some(x) ==> x@ == ({
            let size = if places >= 0 {
                quot(mantissa as int, pow10(places as nat) as int)
            } else {
                (mantissa * pow10((-places) as nat)) as real
            };
            if negative {
                -size
            } else {
                size
            }
        }),
{
    let (magnitude, scale): (u128, i64) = if places >= 0 {
        (mantissa, power_of_ten(places as usize))
    } else {
        let factor = power_of_ten((-places) as usize);
        assert(mantissa * (factor as u128) <= 0x7fff_ffff_ffff_ffff * 1_000_000_000_000_000_000)
            by (nonlinear_arith)
            requires
                mantissa <= 0x7fff_ffff_ffff_ffff,
                0 < factor <= 1_000_000_000_000_000_000,
        ;
        let product: u128 = mantissa * (factor as u128);
        if product > 0x7fff_ffff_ffff_ffff {
            return None;
        }
        (product, 1)
    };
    let num: i64 = if negative {
        -(magnitude as i64)
    } else {
        magnitude as i64
    };
    proof {
        let nr = magnitude as real;
        let dr = scale as real;
        assert((-nr) / dr == -(nr / dr)) by (nonlinear_arith)
            requires
                dr > 0real,
        ;
        assert(nr / 1real == nr) by (nonlinear_arith);
        assert(in_range(num as int, scale as int));
        assert(quot(num as int, scale as int) == quot(num as int, scale as int));
        assert(fits(quot(num as int, scale as int)));
    }
    Ratio::new(num, scale)
}

/// Reads a decimal number: the exact value of the notation, as a fraction.
pub fn parse_decimal(s: &Vec<char>) -> (r: Result<Ratio, NumberError>)
    ensures
        match r {
            Ok(x) => decimal_result(s@) == Ok::<real, NumberError>(x@),
            Err(e) => decimal_result(s@) == Err::<real, NumberError>(e),
        },
{
    let negative = s.len() > 0 && s[0] == '-';
    let body = lowered_chars(&without_sign(s));
    let parts = split_chars(&body, 'e');
    assert(views(parts@).len() == parts@.len());
    if parts.len() > 2 {
        return Err(NumberError::Malformed);
    }
    assert(parts@[0]@ == significand(s@)) by {
        assert(views(parts@)[0] == parts@[0]@);
    }
    let pieces = split_chars(&parts[0], '.');
    assert(views(pieces@).len() == pieces@.len());
    if pieces.len() > 2 {
        return Err(NumberError::Malformed);
    }
    let empty: Vec<char> = Vec::new();
    let whole = &pieces[0];
    let fraction = if pieces.len() == 2 {
        &pieces[1]
    } else {
        &empty
    };
    assert(whole@ == integer_digits(s@)) by {
        assert(views(pieces@)[0] == pieces@[0]@);
    }
    assert(fraction@ == fraction_digits(s@)) by {
        if pieces.len() == 2 {
            assert(views(pieces@)[1] == pieces@[1]@);
        }
    }
    if !is_all_digits(whole) || !is_all_digits(fraction) || (whole.len() == 0 && fraction.len()
        == 0) {
        return Err(NumberError::Malformed);
    }
    let written = parts.len() == 2;
    let falling = written && parts[1].len() > 0 && parts[1][0] == '-';
    let power = if written {
        assert(views(parts@)[1] == parts@[1]@);
        without_sign(&parts[1])
    } else {
        Vec::new()
    };
    if written && (power.len() == 0 || !is_all_digits(&power)) {
        return Err(NumberError::Malformed);
    }
    assert(is_decimal(s@));
    let limit: u128 = 0x7fff_ffff_ffff_ffff;
    let m = match extend_number(0, whole, limit) {
        Some(m) => m,
        None => {
            proof {
                lemma_extend_grows(digits_value(whole@), fraction@, 0);
                assert(fraction@.take(0) =~= Seq::<char>::empty());
            }
            return Err(NumberError::OutOfRange);
        },
    };
    let m = match extend_number(m, fraction, limit) {
        Some(m) => m,
        None => {
            return Err(NumberError::OutOfRange);
        },
    };
    let decimals: u128 = fraction.len() as u128;
    let places: i128 = if !written {
        assert(exponent(s@) == 0);
        if decimals > 18 {
            return Err(NumberError::OutOfRange);
        }
        decimals as i128
    } else if falling {
        match extend_number(0, &power, 18) {
            Some(e) => {
                assert(exponent(s@) == -(e as int));
                if decimals + e > 18 {
                    return Err(NumberError::OutOfRange);
                }
                (decimals + e) as i128
            },
            None => {
                assert(exponent(s@) < -18);
                return Err(NumberError::OutOfRange);
            },
        }
    } else {
        match extend_number(0, &power, decimals + 18) {
            Some(e) => {
                assert(exponent(s@) == e as int);
                if decimals > e + 18 {
                    return Err(NumberError::OutOfRange);
                }
                decimals as i128 - e as i128
            },
            None => {
                assert(exponent(s@) > decimals + 18);
                return Err(NumberError::OutOfRange);
            },
        }
    };
    assert(places == decimal_shift(s@));
    match scaled_decimal(negative, m, places) {
        Some(x) => Ok(x),
        None => Err(NumberError::OutOfRange),
    }
}

/// Reads a natural number that is at most `limit`.
pub fn parse_natural(s: &Vec<char>, limit: u64) -> (r: Result<u64, NumberError>)
    ensures
        match r {
            Ok(x) => natural_result(s@, limit as nat) == Ok::<nat, NumberError>(x as nat),
            Err(e) => natural_result(s@, limit as nat) == Err::<nat, NumberError>(e),
        },
{
    let signed = s.len() > 0 && s[0] == '+';
    let digits = if signed {
        subrange(s, 1, s.len())
    } else {
        subrange(s, 0, s.len())
    };
    assert(digits@ == natural_digits(s@));
    if digits.len() < 1 || !is_all_digits(&digits) {
        return Err(NumberError::Malformed);
    }
    match extend_number(0, &digits, limit as u128) {
        Some(n) => Ok(n as u64),
        None => Err(NumberError::OutOfRange),
    }
}

} // verus!
