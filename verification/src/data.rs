//! Character classes, the Windows-1252 code page, and small value types.

use vstd::prelude::*;

verus! {

/// A colour given as `rgb { r g b }`.
#[derive(Debug, Clone, Copy, PartialEq, Eq, Structural)]
pub struct Rgb {
    /// Red channel
    pub r: u32,
    /// Green channel
    pub g: u32,
    /// Blue channel
    pub b: u32,
}

/// Space, tab, line feed, vertical tab, form feed and carriage return.
pub open spec fn spec_is_whitespace(b: u8) -> bool {
    b == 0x20 || (0x09 <= b && b <= 0x0d)
}

/// The bytes that end an unquoted scalar: whitespace and `{`, `}`, `=`, `#`, `"`.
pub open spec fn spec_is_boundary(b: u8) -> bool {
    spec_is_whitespace(b) || b == 0x7b || b == 0x7d || b == 0x3d || b == 0x23 || b == 0x22
}

/// Whether `b` is a whitespace byte.
#[verifier::when_used_as_spec(spec_is_whitespace)]
pub fn is_whitespace(b: u8) -> (r: bool)
    ensures
        r == spec_is_whitespace(b),
{
    b == 0x20 || (0x09 <= b && b <= 0x0d)
}

/// Whether `b` ends an unquoted scalar.
#[verifier::when_used_as_spec(spec_is_boundary)]
pub fn is_boundary(b: u8) -> (r: bool)
    ensures
        r == spec_is_boundary(b),
{
    is_whitespace(b) || b == 0x7b || b == 0x7d || b == 0x3d || b == 0x23 || b == 0x22
}

/// The character that byte `b` stands for in Windows-1252, in the best-fit
/// variant: the five bytes the code page leaves unassigned stand for the C1
/// control characters of the same number.
pub open spec fn cp1252(b: u8) -> char {
    if b < 0x80 || b >= 0xa0 {
        b as char
    } else {
        match b {
            0x80 => '\u{20ac}',
            0x82 => '\u{201a}',
            0x83 => '\u{0192}',
            0x84 => '\u{201e}',
            0x85 => '\u{2026}',
            0x86 => '\u{2020}',
            0x87 => '\u{2021}',
            0x88 => '\u{02c6}',
            0x89 => '\u{2030}',
            0x8a => '\u{0160}',
            0x8b => '\u{2039}',
            0x8c => '\u{0152}',
            0x8e => '\u{017d}',
            0x91 => '\u{2018}',
            0x92 => '\u{2019}',
            0x93 => '\u{201c}',
            0x94 => '\u{201d}',
            0x95 => '\u{2022}',
            0x96 => '\u{2013}',
            0x97 => '\u{2014}',
            0x98 => '\u{02dc}',
            0x99 => '\u{2122}',
            0x9a => '\u{0161}',
            0x9b => '\u{203a}',
            0x9c => '\u{0153}',
            0x9e => '\u{017e}',
            0x9f => '\u{0178}',
            _ => b as char,
        }
    }
}

/// Looks `b` up in the Windows-1252 code page.
pub fn windows_1252_char(b: u8) -> (c: char)
    ensures
        c == cp1252(b),
{
    if b < 0x80 || b >= 0xa0 {
        b as char
    } else {
        match b {
            0x80 => '\u{20ac}',
            0x82 => '\u{201a}',
            0x83 => '\u{0192}',
            0x84 => '\u{201e}',
            0x85 => '\u{2026}',
            0x86 => '\u{2020}',
            0x87 => '\u{2021}',
            0x88 => '\u{02c6}',
            0x89 => '\u{2030}',
            0x8a => '\u{0160}',
            0x8b => '\u{2039}',
            0x8c => '\u{0152}',
            0x8e => '\u{017d}',
            0x91 => '\u{2018}',
            0x92 => '\u{2019}',
            0x93 => '\u{201c}',
            0x94 => '\u{201d}',
            0x95 => '\u{2022}',
            0x96 => '\u{2013}',
            0x97 => '\u{2014}',
            0x98 => '\u{02dc}',
            0x99 => '\u{2122}',
            0x9a => '\u{0161}',
            0x9b => '\u{203a}',
            0x9c => '\u{0153}',
            0x9e => '\u{017e}',
            0x9f => '\u{0178}',
            _ => b as char,
        }
    }
}

} // verus!
