//! Numbers and booleans, as the format writes them in ASCII.
//!
//! A number is a run of decimal digits, with a `-` before it where it may be
//! negative and with a point in it where it may have a fraction. Digits are
//! checked and converted eight at a time.

use vstd::prelude::*;
use vstd::slice::slice_subrange;
use crate::scalar::{Decimal, ScalarError};
use crate::util::{
    all_digit_lanes, digits_value, le_u64, lemma_digits_stage1, lemma_digits_stage2,
    lemma_digits_stage3, lemma_digits_wide, lemma_pack8_lanes, word_of,
};

verus! {

/// `b` is one of the ASCII digits `0` to `9`.
pub open spec fn is_digit(b: u8) -> bool {
    0x30 <= b && b <= 0x39
}

/// Every byte of `s` is an ASCII digit.
pub open spec fn all_digits(s: Seq<u8>) -> bool {
    forall|i: int| 0 <= i < s.len() ==> is_digit(#[trigger] s[i])
}

/// The number that the digits of `s` write in base ten.
pub open spec fn decimal_value(s: Seq<u8>) -> nat
    decreases s.len(),
{
    if s.len() == 0 {
        0
    } else {
        decimal_value(s.drop_last()) * 10 + (s.last() - 0x30) as nat
    }
}

/// Ten to the power `k`.
pub open spec fn pow10(k: nat) -> nat
    decreases k,
{
    if k == 0 {
        1
    } else {
        10 * pow10((k - 1) as nat)
    }
}

/// What `yes` and `no` mean; anything else is not a boolean.
pub open spec fn parse_bool(s: Seq<u8>) -> Result<bool, ScalarError> {
    if s == seq![0x79u8, 0x65u8, 0x73u8] {
        Ok(true)
    } else if s == seq![0x6eu8, 0x6fu8] {
        Ok(false)
    } else {
        Err(ScalarError::InvalidBool)
    }
}

/// The unsigned number that `s` writes: a non-empty run of digits whose
/// value fits in 64 bits.
pub open spec fn parse_u64(s: Seq<u8>) -> Result<u64, ScalarError> {
    if s.len() == 0 || !all_digits(s) {
        Err(ScalarError::AllDigits)
    } else if decimal_value(s) > u64::MAX {
        Err(ScalarError::Overflow)
    } else {
        Ok(decimal_value(s) as u64)
    }
}

/// Whether `s` starts with a minus sign.
pub open spec fn is_negative(s: Seq<u8>) -> bool {
    s.len() > 0 && s[0] == 0x2d
}

/// The digits of `s` behind its optional sign.
pub open spec fn magnitude(s: Seq<u8>) -> Seq<u8> {
    if is_negative(s) {
        s.subrange(1, s.len() as int)
    } else {
        s
    }
}

/// The signed number that `s` writes: an optional `-`, then a non-empty run
/// of digits; the value has to fit in 64 bits with its sign.
pub open spec fn parse_i64(s: Seq<u8>) -> Result<i64, ScalarError> {
    let m = magnitude(s);
    if m.len() == 0 || !all_digits(m) {
        Err(ScalarError::AllDigits)
    } else if is_negative(s) {
        if decimal_value(m) > 0x8000_0000_0000_0000 {
            Err(ScalarError::Overflow)
        } else {
            Ok((-decimal_value(m)) as i64)
        }
    } else if decimal_value(m) > i64::MAX {
        Err(ScalarError::Overflow)
    } else {
        Ok(decimal_value(m) as i64)
    }
}

/// The first position at or after `from` where `s` holds `b`, or the length
/// of `s` if there is none.
pub open spec fn find_byte(s: Seq<u8>, b: u8, from: int) -> int
    decreases s.len() - from,
{
    if from >= s.len() {
        s.len() as int
    } else if s[from] == b {
        from
    } else {
        find_byte(s, b, from + 1)
    }
}

/// The number that the digits behind a point write: a non-empty run of
/// digits, with no sign, whose value fits in 64 bits with a sign.
pub open spec fn parse_fraction(s: Seq<u8>) -> Result<i64, ScalarError> {
    match parse_u64(s) {
        Err(e) => Err(e),
        Ok(v) => if v > i64::MAX {
            Err(ScalarError::Overflow)
        } else {
            Ok(v as i64)
        },
    }
}

/// The decimal number that `s` writes. Without a point it is the signed
/// integer `s`; with one, a signed integer stands before the first point
/// and digits alone behind it, nine of them at most.
pub open spec fn parse_decimal(s: Seq<u8>) -> Result<Decimal, ScalarError> {
    let idx = find_byte(s, 0x2e, 0);
    if idx >= s.len() {
        match parse_i64(s) {
            Ok(lead) => Ok(Decimal { lead, frac: 0, scale: 1 }),
            Err(e) => Err(e),
        }
    } else {
        let trail = s.subrange(idx + 1, s.len() as int);
        match parse_i64(s.subrange(0, idx)) {
            Err(e) => Err(e),
            Ok(lead) => match parse_fraction(trail) {
                Err(e) => Err(e),
                Ok(frac) => if trail.len() > 9 {
                    Err(ScalarError::Overflow)
                } else {
                    Ok(Decimal { lead, frac, scale: pow10(trail.len()) as u32 })
                },
            },
        }
    }
}

/// `yes` is true and `no` is false.
pub fn to_bool(d: &[u8]) -> (r: Result<bool, ScalarError>)
    ensures
        r == parse_bool(d@),
{
    if d.len() == 3 && d[0] == 0x79 && d[1] == 0x65 && d[2] == 0x73 {
        assert(d@ == seq![0x79u8, 0x65u8, 0x73u8]);
        Ok(true)
    } else if d.len() == 2 && d[0] == 0x6e && d[1] == 0x6f {
        assert(d@ == seq![0x6eu8, 0x6fu8]);
        Ok(false)
    } else {
        assert(seq![0x79u8, 0x65u8, 0x73u8].len() == 3);
        assert(seq![0x6eu8, 0x6fu8].len() == 2);
        assert(d@ != seq![0x79u8, 0x65u8, 0x73u8]) by {
            if d@ == seq![0x79u8, 0x65u8, 0x73u8] {
                assert(d@[0] == 0x79 && d@[1] == 0x65 && d@[2] == 0x73);
            }
        }
        assert(d@ != seq![0x6eu8, 0x6fu8]) by {
            if d@ == seq![0x6eu8, 0x6fu8] {
                assert(d@[0] == 0x6e && d@[1] == 0x6f);
            }
        }
        Err(ScalarError::InvalidBool)
    }
}

/// Whether the eight bytes of `d` are all digits, tested on one word.
pub fn is_digits_wide(d: &[u8]) -> (r: bool)
    requires
        d@.len() == 8,
    ensures
        r == all_digits(d@),
{
    let val = le_u64(d);
    proof {
        lemma_digits_wide(val);
        lemma_pack8_lanes(d@[0], d@[1], d@[2], d@[3], d@[4], d@[5], d@[6], d@[7]);
        if all_digits(d@) {
            assert(is_digit(d@[0]) && is_digit(d@[1]) && is_digit(d@[2]) && is_digit(d@[3])
                && is_digit(d@[4]) && is_digit(d@[5]) && is_digit(d@[6]) && is_digit(d@[7]));
        }
    }
    match val.checked_add(0x0606_0606_0606_0606) {
        Some(x) => ((val & 0xF0F0_F0F0_F0F0_F0F0) | ((x & 0xF0F0_F0F0_F0F0_F0F0) >> 4))
            == 0x3333_3333_3333_3333,
        None => false,
    }
}

/// Whether the bytes of `d` are all digits.
pub fn is_digits(d: &[u8]) -> (r: bool)
    ensures
        r == all_digits(d@),
{
    let mut i: usize = 0;
    while i < d.len()
        invariant
            i <= d@.len(),
            forall|j: int| 0 <= j < i ==> is_digit(#[trigger] d@[j]),
        decreases d@.len() - i,
    {
        if d[i] < 0x30 || d[i] > 0x39 {
            return false;
        }
        i += 1;
    }
    true
}

/// The eight-digit fast path computes the same word whatever the bytes are.
pub open spec fn spec_ascii_u64_to_digits(val: u64) -> u64 {
    let a = (val & 0x0F0F_0F0F_0F0F_0F0Fu64).wrapping_mul(2561) >> 8;
    let b = (a & 0x00FF_00FF_00FF_00FFu64).wrapping_mul(6553601) >> 16;
    (b & 0x0000_FFFF_0000_FFFFu64).wrapping_mul(42949672960001) >> 32
}

/// Turns a word of eight ASCII digits into the number they write, in three
/// multiply-and-shift steps.
pub fn ascii_u64_to_digits(val: u64) -> (r: u64)
    ensures
        r == spec_ascii_u64_to_digits(val),
        all_digit_lanes(val) ==> r == digits_value(val),
{
    proof {
        if all_digit_lanes(val) {
            lemma_ascii_u64_to_digits(val);
        }
    }
    let a = (val & 0x0F0F_0F0F_0F0F_0F0Fu64).wrapping_mul(2561) >> 8;
    let b = (a & 0x00FF_00FF_00FF_00FFu64).wrapping_mul(6553601) >> 16;
    (b & 0x0000_FFFF_0000_FFFFu64).wrapping_mul(42949672960001) >> 32
}

/// Ten to the power `k`, for the powers that a tail of up to eight digits needs.
pub fn power10(k: usize) -> (r: u64)
    requires
        k <= 9,
    ensures
        r == pow10(k as nat),
{
    proof {
        reveal_with_fuel(pow10, 11);
    }
    match k {
        0 => 1,
        1 => 10,
        2 => 100,
        3 => 1_000,
        4 => 10_000,
        5 => 100_000,
        6 => 1_000_000,
        7 => 10_000_000,
        8 => 100_000_000,
        _ => 1_000_000_000,
    }
}

/// Parses a non-empty run of ASCII digits as an unsigned number.
///
/// The digits are checked and converted eight at a time; the up to seven
/// that are left over are handled one by one.
pub fn to_u64(d: &[u8]) -> (r: Result<u64, ScalarError>)
    ensures
        r == parse_u64(d@),
{
    let n = d.len();
    if n == 0 {
        return Err(ScalarError::AllDigits);
    }
    let chunks = n / 8;
    let tail = chunks * 8;
    let mut i: usize = 0;
    while i < chunks
        invariant
            i <= chunks,
            chunks == n / 8,
            n == d@.len(),
            all_digits(d@.subrange(0, 8 * i)),
        decreases chunks - i,
    {
        let chunk = slice_subrange(d, 8 * i, 8 * i + 8);
        if !is_digits_wide(chunk) {
            proof {
                let k = choose|k: int| 0 <= k < 8 && !is_digit(#[trigger] chunk@[k]);
                assert(d@[8 * i + k] == chunk@[k]);
            }
            return Err(ScalarError::AllDigits);
        }
        proof {
            let next = d@.subrange(0, 8 * i + 8);
            assert forall|j: int| 0 <= j < next.len() implies is_digit(#[trigger] next[j]) by {
                if j < 8 * i {
                    assert(next[j] == d@.subrange(0, 8 * i)[j]);
                } else {
                    assert(next[j] == chunk@[j - 8 * i]);
                }
            }
        }
        i += 1;
    }
    let remainder = slice_subrange(d, tail, n);
    if !is_digits(remainder) {
        proof {
            let k = choose|k: int| 0 <= k < remainder@.len() && !is_digit(#[trigger] remainder@[k]);
            assert(d@[tail + k] == remainder@[k]);
        }
        return Err(ScalarError::AllDigits);
    }
    assert(all_digits(d@)) by {
        assert forall|j: int| 0 <= j < d@.len() implies is_digit(#[trigger] d@[j]) by {
            if j < tail {
                assert(d@[j] == d@.subrange(0, 8 * i)[j]);
            } else {
                assert(d@[j] == remainder@[j - tail]);
            }
        }
    }

    let mut result: u64 = 0;
    let mut i: usize = 0;
    assert(d@.subrange(0, 0).len() == 0);
    while i < chunks
        invariant
            i <= chunks,
            chunks == n / 8,
            n == d@.len(),
            all_digits(d@),
            result == decimal_value(d@.subrange(0, 8 * i)),
        decreases chunks - i,
    {
        let chunk = slice_subrange(d, 8 * i, 8 * i + 8);
        let val = le_u64(chunk);
        let digits = ascii_u64_to_digits(val);
        proof {
            assert forall|j: int| 0 <= j < 8 implies is_digit(#[trigger] chunk@[j]) by {
                assert(chunk@[j] == d@[8 * i + j]);
            }
            lemma_decimal_chunk(chunk@);
            lemma_ascii_u64_to_digits(val);
            lemma_decimal_concat(d@.subrange(0, 8 * i), chunk@);
            assert(d@.subrange(0, 8 * i) + chunk@ == d@.subrange(0, 8 * i + 8));
            reveal_with_fuel(pow10, 9);
            assert(pow10(8) == 100_000_000);
            lemma_decimal_prefix(d@, 8 * i + 8);
        }
        match result.checked_mul(100_000_000) {
            Some(x) => match x.checked_add(digits) {
                Some(y) => {
                    result = y;
                },
                None => {
                    return Err(ScalarError::Overflow);
                },
            },
            None => {
                return Err(ScalarError::Overflow);
            },
        }
        i += 1;
    }

    let rem = n - tail;
    let ghost whole = decimal_value(d@.subrange(0, tail as int));
    proof {
        lemma_decimal_prefix(d@, tail as int);
        assert(result == whole);
        if result == 0 {
            assert(whole * pow10(rem as nat) == 0) by (nonlinear_arith)
                requires
                    whole == 0,
            ;
        }
    }
    if result != 0 {
        match result.checked_mul(power10(rem)) {
            Some(x) => {
                result = x;
            },
            None => {
                return Err(ScalarError::Overflow);
            },
        }
    }
    let mut j: usize = 0;
    while j < rem
        invariant
            j <= rem,
            rem == n - tail,
            rem < 8,
            n == d@.len(),
            remainder@ == d@.subrange(tail as int, n as int),
            all_digits(d@),
            result == decimal_value(d@.subrange(0, tail + j)) * pow10((rem - j) as nat),
        decreases rem - j,
    {
        let x = remainder[j];
        let scale = power10(rem - 1 - j);
        proof {
            assert(x == d@[tail + j]);
            assert(is_digit(d@[tail + j]));
            lemma_decimal_step(d@, tail + j);
            lemma_decimal_prefix(d@, tail + j + 1);
            let v = decimal_value(d@.subrange(0, tail + j));
            let dj = (x - 0x30) as nat;
            let p = pow10((rem - 1 - j) as nat);
            assert(pow10((rem - j) as nat) == 10 * p);
            assert((v * 10 + dj) * p == v * (10 * p) + dj * p) by (nonlinear_arith);
            assert(dj * p <= 9 * p) by (nonlinear_arith)
                requires
                    dj <= 9,
                    p >= 0,
            ;
            reveal_with_fuel(pow10, 9);
            assert(p <= 10_000_000);
        }
        let add = ((x - 0x30) as u64) * scale;
        match result.checked_add(add) {
            Some(y) => {
                result = y;
            },
            None => {
                return Err(ScalarError::Overflow);
            },
        }
        j += 1;
    }
    proof {
        assert(d@.subrange(0, tail + j) == d@);
        assert(pow10((rem - j) as nat) == 1);
        let v = decimal_value(d@);
        let p = pow10((rem - j) as nat);
        assert(result == v) by (nonlinear_arith)
            requires
                result == v * p,
                p == 1,
        ;
    }
    Ok(result)
}

/// Parses an optional `-` and a run of ASCII digits as a signed number.
pub fn to_i64(d: &[u8]) -> (r: Result<i64, ScalarError>)
    ensures
        r == parse_i64(d@),
{
    let negative = d.len() > 0 && d[0] == 0x2d;
    let rest = if negative {
        slice_subrange(d, 1, d.len())
    } else {
        d
    };
    match to_u64(rest) {
        Err(e) => Err(e),
        Ok(v) => {
            if negative {
                if v > 0x8000_0000_0000_0000 {
                    Err(ScalarError::Overflow)
                } else if v == 0x8000_0000_0000_0000 {
                    Ok(i64::MIN)
                } else {
                    Ok(-(v as i64))
                }
            } else if v > 0x7fff_ffff_ffff_ffff {
                Err(ScalarError::Overflow)
            } else {
                Ok(v as i64)
            }
        },
    }
}

/// Finds the first `b` in `d`: its position, or the length of `d`.
pub fn position(d: &[u8], b: u8) -> (r: usize)
    ensures
        r == find_byte(d@, b, 0),
{
    let mut i: usize = 0;
    while i < d.len() && d[i] != b
        invariant
            i <= d@.len(),
            find_byte(d@, b, 0) == find_byte(d@, b, i as int),
        decreases d@.len() - i,
    {
        i += 1;
    }
    i
}

/// Splits a decimal number at its point and parses the signed integer
/// before it and the digits behind it.
pub fn to_decimal(d: &[u8]) -> (r: Result<Decimal, ScalarError>)
    ensures
        r == parse_decimal(d@),
{
    let idx = position(d, 0x2e);
    if idx >= d.len() {
        match to_i64(d) {
            Ok(lead) => Ok(Decimal { lead, frac: 0, scale: 1 }),
            Err(e) => Err(e),
        }
    } else {
        let lead = match to_i64(slice_subrange(d, 0, idx)) {
            Ok(v) => v,
            Err(e) => {
                return Err(e);
            },
        };
        let trail = slice_subrange(d, idx + 1, d.len());
        let frac = match to_u64(trail) {
            Ok(v) => {
                if v > 0x7fff_ffff_ffff_ffff {
                    return Err(ScalarError::Overflow);
                }
                v as i64
            },
            Err(e) => {
                return Err(e);
            },
        };
        if trail.len() > 9 {
            return Err(ScalarError::Overflow);
        }
        let scale = power10(trail.len());
        proof {
            reveal_with_fuel(pow10, 11);
        }
        Ok(Decimal { lead, frac, scale: scale as u32 })
    }
}

/// A run of digits that fits in 64 bits is parsed as the number that it
/// writes in base ten; one that does not fit is an overflow.
pub proof fn lemma_parse_u64_of_digits(s: Seq<u8>)
    requires
        s.len() > 0,
        all_digits(s),
    ensures
        decimal_value(s) <= u64::MAX ==> parse_u64(s) == Ok::<u64, ScalarError>(
            decimal_value(s) as u64,
        ),
        decimal_value(s) > u64::MAX ==> parse_u64(s) == Err::<u64, ScalarError>(
            ScalarError::Overflow,
        ),
{
}

/// A number of more than twenty digits that starts with no zero does not
/// fit in 64 bits.
pub proof fn lemma_long_numbers_overflow(s: Seq<u8>)
    requires
        s.len() > 20,
        all_digits(s),
        s[0] != 0x30,
    ensures
        parse_u64(s) == Err::<u64, ScalarError>(ScalarError::Overflow),
{
    let head = s.subrange(0, 1);
    let rest = s.subrange(1, s.len() as int);
    assert(head + rest == s);
    lemma_decimal_concat(head, rest);
    assert(head.drop_last() == Seq::<u8>::empty());
    assert(decimal_value(head.drop_last()) == 0);
    assert(is_digit(s[0]));
    assert(decimal_value(head) >= 1);
    lemma_pow10_grows(20, rest.len());
    reveal_with_fuel(pow10, 21);
    assert(pow10(20) == 100_000_000_000_000_000_000);
    let d = decimal_value(head);
    let p = pow10(rest.len());
    assert(d * p >= p) by (nonlinear_arith)
        requires
            d >= 1,
            p >= 0,
    ;
}

/// A scalar that is an integer is, as a decimal number, that integer with
/// nothing behind the point.
pub proof fn lemma_decimal_of_integer(s: Seq<u8>)
    requires
        parse_i64(s) is Ok,
    ensures
        parse_decimal(s) == Ok::<Decimal, ScalarError>(
            Decimal { lead: parse_i64(s)->Ok_0, frac: 0, scale: 1 },
        ),
{
    let m = magnitude(s);
    assert forall|i: int| 0 <= i < s.len() implies (#[trigger] s[i]) != 0x2e by {
        if is_negative(s) {
            if i > 0 {
                assert(is_digit(m[i - 1]));
                assert(m[i - 1] == s[i]);
            }
        } else {
            assert(is_digit(m[i]));
        }
    }
    lemma_find_byte_absent(s, 0x2e, 0);
}

/// A wrapping multiplication keeps the low 64 bits of the product.
proof fn lemma_wrapping_mul(x: u64, y: u64)
    ensures
        x.wrapping_mul(y) == ((x * y) as u64),
{
    let t = x.wrapping_mul(y);
    assert(t == ((x * y) as u64)) by (bit_vector)
        requires
            t == ((x as nat * y as nat) % 0x1_0000_0000_0000_0000nat) as u64,
    ;
}

/// On a word of eight digits the fast path gives the number they write.
pub proof fn lemma_ascii_u64_to_digits(val: u64)
    requires
        all_digit_lanes(val),
    ensures
        spec_ascii_u64_to_digits(val) == digits_value(val),
        digits_value(val) <= 99_999_999,
{
    let m1 = val & 0x0F0F_0F0F_0F0F_0F0Fu64;
    let a = m1.wrapping_mul(2561) >> 8;
    let m2 = a & 0x00FF_00FF_00FF_00FFu64;
    let b = m2.wrapping_mul(6553601) >> 16;
    let m3 = b & 0x0000_FFFF_0000_FFFFu64;
    let c = m3.wrapping_mul(42949672960001) >> 32;
    lemma_wrapping_mul(m1, 2561);
    lemma_wrapping_mul(m2, 6553601);
    lemma_wrapping_mul(m3, 42949672960001);
    lemma_digits_stage1(val, a);
    lemma_digits_stage2(a, b);
    lemma_digits_stage3(b, c);
}

/// Splitting a run of digits splits its value at a power of ten.
pub proof fn lemma_decimal_concat(a: Seq<u8>, b: Seq<u8>)
    ensures
        decimal_value(a + b) == decimal_value(a) * pow10(b.len()) + decimal_value(b),
    decreases b.len(),
{
    if b.len() == 0 {
        assert(a + b == a);
        assert(pow10(0) == 1);
        assert(decimal_value(b) == 0);
        assert(decimal_value(a) * 1 == decimal_value(a));
    } else {
        lemma_decimal_concat(a, b.drop_last());
        assert((a + b).drop_last() == a + b.drop_last());
        assert((a + b).last() == b.last());
        let x = decimal_value(a);
        let p = pow10(b.drop_last().len());
        let y = decimal_value(b.drop_last());
        let d = (b.last() - 0x30) as nat;
        assert(pow10(b.len()) == 10 * p);
        assert(decimal_value(a + b) == decimal_value(a + b.drop_last()) * 10 + d);
        assert(decimal_value(b) == y * 10 + d);
        assert((x * p + y) * 10 == x * (10 * p) + y * 10) by (nonlinear_arith);
    }
}

/// One more digit multiplies the value by ten and adds the digit.
pub proof fn lemma_decimal_step(s: Seq<u8>, i: int)
    requires
        0 <= i < s.len(),
    ensures
        decimal_value(s.subrange(0, i + 1)) == decimal_value(s.subrange(0, i)) * 10 + (s[i]
            - 0x30) as nat,
{
    assert(s.subrange(0, i + 1).drop_last() == s.subrange(0, i));
}

/// Eight digits are worth what the word that holds them is worth.
pub proof fn lemma_decimal_chunk(s: Seq<u8>)
    requires
        s.len() == 8,
        all_digits(s),
    ensures
        all_digit_lanes(word_of(s)),
        decimal_value(s) == digits_value(word_of(s)),
{
    lemma_pack8_lanes(s[0], s[1], s[2], s[3], s[4], s[5], s[6], s[7]);
    assert(is_digit(s[0]) && is_digit(s[1]) && is_digit(s[2]) && is_digit(s[3]) && is_digit(s[4])
        && is_digit(s[5]) && is_digit(s[6]) && is_digit(s[7]));
    assert(decimal_value(s.subrange(0, 0)) == 0);
    lemma_decimal_step(s, 0);
    lemma_decimal_step(s, 1);
    lemma_decimal_step(s, 2);
    lemma_decimal_step(s, 3);
    lemma_decimal_step(s, 4);
    lemma_decimal_step(s, 5);
    lemma_decimal_step(s, 6);
    lemma_decimal_step(s, 7);
    assert(s.subrange(0, 8) == s);
}

/// Digits that follow never make a number smaller.
pub proof fn lemma_decimal_prefix(s: Seq<u8>, i: int)
    requires
        0 <= i <= s.len(),
    ensures
        decimal_value(s.subrange(0, i)) * pow10((s.len() - i) as nat) <= decimal_value(s),
        pow10((s.len() - i) as nat) >= 1,
        decimal_value(s.subrange(0, i)) <= decimal_value(s),
{
    let a = s.subrange(0, i);
    let b = s.subrange(i, s.len() as int);
    assert(a + b == s);
    lemma_decimal_concat(a, b);
    lemma_pow10_positive(b.len());
    let x = decimal_value(a);
    let p = pow10(b.len());
    assert(x <= x * p) by (nonlinear_arith)
        requires
            p >= 1,
            x >= 0,
    ;
}

/// A power of ten is at least one.
pub proof fn lemma_pow10_positive(k: nat)
    ensures
        pow10(k) >= 1,
    decreases k,
{
    if k > 0 {
        lemma_pow10_positive((k - 1) as nat);
    }
}

/// Powers of ten grow with the exponent.
pub proof fn lemma_pow10_grows(a: nat, b: nat)
    requires
        a <= b,
    ensures
        pow10(a) <= pow10(b),
    decreases b,
{
    if a < b {
        lemma_pow10_grows(a, (b - 1) as nat);
        assert(pow10(b) == 10 * pow10((b - 1) as nat));
    }
}

/// What `find_byte` finds: nothing before it, and the byte itself unless the
/// search ran to the end.
pub proof fn lemma_find_byte(s: Seq<u8>, b: u8, from: int)
    requires
        0 <= from <= s.len(),
    ensures
        from <= find_byte(s, b, from) <= s.len(),
        forall|j: int| from <= j < find_byte(s, b, from) ==> (#[trigger] s[j]) != b,
        find_byte(s, b, from) < s.len() ==> s[find_byte(s, b, from)] == b,
    decreases s.len() - from,
{
    if from < s.len() && s[from] != b {
        lemma_find_byte(s, b, from + 1);
    }
}

/// No byte of `s` is `b`: the search runs to the end.
pub proof fn lemma_find_byte_absent(s: Seq<u8>, b: u8, from: int)
    requires
        0 <= from <= s.len(),
        forall|i: int| from <= i < s.len() ==> (#[trigger] s[i]) != b,
    ensures
        find_byte(s, b, from) == s.len(),
    decreases s.len() - from,
{
    if from < s.len() {
        lemma_find_byte_absent(s, b, from + 1);
    }
}

} // verus!
