//! Branch-free helpers for scanning eight bytes at a time.

use vstd::prelude::*;

verus! {

/// The byte of `w` that starts at bit `shift`.
pub open spec fn lane(w: u64, shift: u64) -> u64 {
    (w >> shift) & 0xff
}

/// Eight bytes as one little-endian word: `b0` is the least significant.
pub open spec fn pack8(b0: u8, b1: u8, b2: u8, b3: u8, b4: u8, b5: u8, b6: u8, b7: u8) -> u64 {
    (b0 as u64) | (b1 as u64) << 8 | (b2 as u64) << 16 | (b3 as u64) << 24 | (b4 as u64) << 32 | (
    b5 as u64) << 40 | (b6 as u64) << 48 | (b7 as u64) << 56
}

/// The little-endian word held in the first eight bytes of `s`.
pub open spec fn word_of(s: Seq<u8>) -> u64 {
    pack8(s[0], s[1], s[2], s[3], s[4], s[5], s[6], s[7])
}

/// Some byte of `w` is zero.
pub open spec fn has_zero_byte(w: u64) -> bool {
    lane(w, 0) == 0 || lane(w, 8) == 0 || lane(w, 16) == 0 || lane(w, 24) == 0 || lane(w, 32) == 0
        || lane(w, 40) == 0 || lane(w, 48) == 0 || lane(w, 56) == 0
}

/// The word whose eight bytes all equal `b`.
pub open spec fn spec_repeat_byte(b: u8) -> u64 {
    pack8(b, b, b, b, b, b, b, b)
}

/// The bytes of a packed word are the bytes that went into it.
pub proof fn lemma_pack8_lanes(b0: u8, b1: u8, b2: u8, b3: u8, b4: u8, b5: u8, b6: u8, b7: u8)
    ensures
        lane(pack8(b0, b1, b2, b3, b4, b5, b6, b7), 0) == b0,
        lane(pack8(b0, b1, b2, b3, b4, b5, b6, b7), 8) == b1,
        lane(pack8(b0, b1, b2, b3, b4, b5, b6, b7), 16) == b2,
        lane(pack8(b0, b1, b2, b3, b4, b5, b6, b7), 24) == b3,
        lane(pack8(b0, b1, b2, b3, b4, b5, b6, b7), 32) == b4,
        lane(pack8(b0, b1, b2, b3, b4, b5, b6, b7), 40) == b5,
        lane(pack8(b0, b1, b2, b3, b4, b5, b6, b7), 48) == b6,
        lane(pack8(b0, b1, b2, b3, b4, b5, b6, b7), 56) == b7,
{
    assert(lane(pack8(b0, b1, b2, b3, b4, b5, b6, b7), 0) == b0 && lane(
        pack8(b0, b1, b2, b3, b4, b5, b6, b7),
        8,
    ) == b1 && lane(pack8(b0, b1, b2, b3, b4, b5, b6, b7), 16) == b2 && lane(
        pack8(b0, b1, b2, b3, b4, b5, b6, b7),
        24,
    ) == b3 && lane(pack8(b0, b1, b2, b3, b4, b5, b6, b7), 32) == b4 && lane(
        pack8(b0, b1, b2, b3, b4, b5, b6, b7),
        40,
    ) == b5 && lane(pack8(b0, b1, b2, b3, b4, b5, b6, b7), 48) == b6 && lane(
        pack8(b0, b1, b2, b3, b4, b5, b6, b7),
        56,
    ) == b7) by (bit_vector);
}

/// Repeats `b` in every byte of a word.
pub fn repeat_byte(b: u8) -> (w: u64)
    ensures
        w == spec_repeat_byte(b),
{
    let w: u64 = (b as u64) * 0x0101_0101_0101_0101u64;
    assert(w == pack8(b, b, b, b, b, b, b, b)) by (bit_vector)
        requires
            w == (b as u64) * 0x0101_0101_0101_0101u64,
    ;
    w
}

/// Whether some byte of `w` is zero.
pub fn contains_zero_byte(w: u64) -> (r: bool)
    ensures
        r == has_zero_byte(w),
{
    let x = w.wrapping_sub(0x0101_0101_0101_0101u64);
    assert(((x & !w & 0x8080_8080_8080_8080u64) != 0) <==> has_zero_byte(w)) by (bit_vector)
        requires
            x == (if w < 0x0101_0101_0101_0101u64 {
                (w - 0x0101_0101_0101_0101u64 + 0x1_0000_0000_0000_0000) as u64
            } else {
                (w - 0x0101_0101_0101_0101u64) as u64
            }),
    ;
    (x & !w & 0x8080_8080_8080_8080u64) != 0
}

/// Loads the first eight bytes of `d` as a little-endian word.
pub fn le_u64(d: &[u8]) -> (w: u64)
    requires
        d@.len() >= 8,
    ensures
        w == word_of(d@),
{
    (d[0] as u64) | (d[1] as u64) << 8 | (d[2] as u64) << 16 | (d[3] as u64) << 24 | (d[4] as u64)
        << 32 | (d[5] as u64) << 40 | (d[6] as u64) << 48 | (d[7] as u64) << 56
}

/// Four bytes as one little-endian word: `b0` is the least significant.
pub open spec fn pack4(b0: u8, b1: u8, b2: u8, b3: u8) -> u32 {
    (b0 as u32) | (b1 as u32) << 8 | (b2 as u32) << 16 | (b3 as u32) << 24
}

/// Loads the first four bytes of `d` as a little-endian signed number: the
/// word of the four bytes, read in two's complement.
pub fn le_i32(d: &[u8]) -> (x: i32)
    requires
        d@.len() >= 4,
    ensures
        x == pack4(d@[0], d@[1], d@[2], d@[3]) as i32,
{
    let w: u32 = (d[0] as u32) | (d[1] as u32) << 8 | (d[2] as u32) << 16 | (d[3] as u32) << 24;
    #[verifier::truncate]
    (w as i32)
}

/// The value of eight ASCII digits, the first one in the lowest byte.
pub open spec fn digits_value(w: u64) -> int {
    (lane(w, 0) - 0x30) * 10_000_000 + (lane(w, 8) - 0x30) * 1_000_000 + (lane(w, 16) - 0x30)
        * 100_000 + (lane(w, 24) - 0x30) * 10_000 + (lane(w, 32) - 0x30) * 1_000 + (lane(w, 40)
        - 0x30) * 100 + (lane(w, 48) - 0x30) * 10 + (lane(w, 56) - 0x30)
}

/// The byte of `w` that starts at bit `shift` is an ASCII digit.
pub open spec fn is_digit_lane(w: u64, shift: u64) -> bool {
    0x30 <= lane(w, shift) <= 0x39
}

/// All eight bytes of `w` are ASCII digits.
pub open spec fn all_digit_lanes(w: u64) -> bool {
    is_digit_lane(w, 0) && is_digit_lane(w, 8) && is_digit_lane(w, 16) && is_digit_lane(w, 24)
        && is_digit_lane(w, 32) && is_digit_lane(w, 40) && is_digit_lane(w, 48) && is_digit_lane(
        w,
        56,
    )
}

/// The test on one word accepts exactly the words of eight digits.
pub proof fn lemma_digits_wide(w: u64)
    ensures
        (w <= 0xf9f9_f9f9_f9f9_f9f9u64 && ((w & 0xF0F0_F0F0_F0F0_F0F0u64) | ((((w
            + 0x0606_0606_0606_0606u64) as u64) & 0xF0F0_F0F0_F0F0_F0F0u64) >> 4))
            == 0x3333_3333_3333_3333u64) <==> all_digit_lanes(w),
{
    assert((w <= 0xf9f9_f9f9_f9f9_f9f9u64 && ((w & 0xF0F0_F0F0_F0F0_F0F0u64) | ((((w
        + 0x0606_0606_0606_0606u64) as u64) & 0xF0F0_F0F0_F0F0_F0F0u64) >> 4))
        == 0x3333_3333_3333_3333u64) <==> all_digit_lanes(w)) by (bit_vector);
}

/// The first multiplication combines the eight digits into four numbers of
/// two digits.
pub proof fn lemma_digits_stage1(w: u64, a: u64)
    requires
        all_digit_lanes(w),
        a == (((w & 0x0F0F_0F0F_0F0F_0F0Fu64) * 2561) as u64) >> 8,
    ensures
        lane(a, 0) == (lane(w, 0) - 0x30) * 10 + (lane(w, 8) - 0x30),
        lane(a, 16) == (lane(w, 16) - 0x30) * 10 + (lane(w, 24) - 0x30),
        lane(a, 32) == (lane(w, 32) - 0x30) * 10 + (lane(w, 40) - 0x30),
        lane(a, 48) == (lane(w, 48) - 0x30) * 10 + (lane(w, 56) - 0x30),
{
    assert(lane(a, 0) == (lane(w, 0) - 0x30) * 10 + (lane(w, 8) - 0x30) && lane(a, 16) == (lane(
        w,
        16,
    ) - 0x30) * 10 + (lane(w, 24) - 0x30) && lane(a, 32) == (lane(w, 32) - 0x30) * 10 + (lane(
        w,
        40,
    ) - 0x30) && lane(a, 48) == (lane(w, 48) - 0x30) * 10 + (lane(w, 56) - 0x30)) by (bit_vector)
        requires
            all_digit_lanes(w),
            a == (((w & 0x0F0F_0F0F_0F0F_0F0Fu64) * 2561) as u64) >> 8,
    ;
}

/// The second multiplication combines them into two numbers of four digits.
pub proof fn lemma_digits_stage2(a: u64, b: u64)
    requires
        lane(a, 0) <= 99,
        lane(a, 16) <= 99,
        lane(a, 32) <= 99,
        lane(a, 48) <= 99,
        b == (((a & 0x00FF_00FF_00FF_00FFu64) * 6553601) as u64) >> 16,
    ensures
        b & 0xffff == lane(a, 0) * 100 + lane(a, 16),
        (b >> 32) & 0xffff == lane(a, 32) * 100 + lane(a, 48),
{
    assert(b & 0xffff == lane(a, 0) * 100 + lane(a, 16) && (b >> 32) & 0xffff == lane(a, 32) * 100
        + lane(a, 48)) by (bit_vector)
        requires
            lane(a, 0) <= 99,
            lane(a, 16) <= 99,
            lane(a, 32) <= 99,
            lane(a, 48) <= 99,
            b == (((a & 0x00FF_00FF_00FF_00FFu64) * 6553601) as u64) >> 16,
    ;
}

/// The third multiplication combines them into the number of eight digits.
pub proof fn lemma_digits_stage3(b: u64, c: u64)
    requires
        b & 0xffff <= 9999,
        (b >> 32) & 0xffff <= 9999,
        c == (((b & 0x0000_FFFF_0000_FFFFu64) * 42949672960001) as u64) >> 32,
    ensures
        c == (b & 0xffff) * 10000 + ((b >> 32) & 0xffff),
{
    assert(c == (b & 0xffff) * 10000 + ((b >> 32) & 0xffff)) by (bit_vector)
        requires
            b & 0xffff <= 9999,
            (b >> 32) & 0xffff <= 9999,
            c == (((b & 0x0000_FFFF_0000_FFFFu64) * 42949672960001) as u64) >> 32,
    ;
}

/// Some byte of `w` equals `b`.
pub open spec fn has_byte(w: u64, b: u8) -> bool {
    lane(w, 0) == b || lane(w, 8) == b || lane(w, 16) == b || lane(w, 24) == b || lane(w, 32) == b
        || lane(w, 40) == b || lane(w, 48) == b || lane(w, 56) == b
}

/// A byte of `w` equals `b` exactly where `w ^ repeat(b)` has a zero byte.
pub proof fn lemma_has_byte(w: u64, b: u8)
    ensures
        has_zero_byte(w ^ spec_repeat_byte(b)) <==> has_byte(w, b),
{
    assert(has_zero_byte(w ^ spec_repeat_byte(b)) <==> has_byte(w, b)) by (bit_vector);
}

} // verus!
