//! The text of Windows-1252 scalars.
//!
//! Whitespace at the end of a scalar is no part of its text, and a backslash
//! inside it stands for the byte behind it: `\"` is a quote and `\\` is one
//! backslash. Bytes that are their own text are not copied.

use std::borrow::Cow;
use vstd::prelude::*;
use vstd::slice::slice_subrange;
use vstd::string::StringSliceAdditionalSpecFns;
use vstd::utf8::{decode_utf8, encode_utf8, is_ascii_chars, valid_utf8};
use crate::ascii::lemma_high_bits;
use crate::data::{cp1252, is_whitespace, spec_is_whitespace, windows_1252_char};
use crate::util::{contains_zero_byte, le_u64, lemma_has_byte, lemma_pack8_lanes, repeat_byte};

verus! {

/// `s` without the whitespace at its end.
pub open spec fn trim_end(s: Seq<u8>) -> Seq<u8>
    decreases s.len(),
{
    if s.len() > 0 && spec_is_whitespace(s.last()) {
        trim_end(s.drop_last())
    } else {
        s
    }
}

/// The bytes of `s` from `from` on with the escapes read: a backslash is
/// dropped and the byte behind it stands for itself, so that `\"` is a quote
/// and `\\` is one backslash. A backslash with nothing behind it is dropped.
pub open spec fn unescape(s: Seq<u8>, from: int) -> Seq<u8>
    decreases s.len() - from,
{
    if from < 0 || from >= s.len() {
        Seq::empty()
    } else if s[from] != 0x5c {
        seq![s[from]] + unescape(s, from + 1)
    } else if from + 1 < s.len() {
        seq![s[from + 1]] + unescape(s, from + 2)
    } else {
        Seq::empty()
    }
}

/// The characters that the bytes of `s` stand for in Windows-1252.
pub open spec fn lookup(s: Seq<u8>) -> Seq<char> {
    s.map_values(|b: u8| cp1252(b))
}

/// The text of a Windows-1252 scalar: whitespace at the end is trimmed, the
/// escapes are read, and each byte left is looked up in the code page.
pub open spec fn decode_windows_1252(s: Seq<u8>) -> Seq<char> {
    lookup(unescape(trim_end(s), 0))
}

/// ASCII without a backslash: such bytes are their own text.
pub open spec fn is_plain(s: Seq<u8>) -> bool {
    forall|i: int| 0 <= i < s.len() ==> (#[trigger] s[i]) < 0x80 && s[i] != 0x5c
}

/// `core::str::from_utf8`: the bytes are accepted exactly when they are
/// well-formed UTF-8, and the string slice that comes back is made of those
/// very bytes.
pub assume_specification<'a>[ core::str::from_utf8 ](v: &'a [u8]) -> (r: Result<
    &'a str,
    core::str::Utf8Error,
>)
    ensures
        r is Ok <==> valid_utf8(v@),
        r matches Ok(s) ==> s.spec_bytes() == v@,
;

/// The error of `core::str::from_utf8`, carried through unread.
#[verifier::external_type_specification]
#[verifier::external_body]
pub struct ExUtf8Error(core::str::Utf8Error);

/// `String::push`: appends one character.
pub assume_specification[ String::push ](s: &mut String, ch: char)
    ensures
        final(s)@ == old(s)@.push(ch),
;

/// The length of `d` without the whitespace at its end.
pub fn trimmed_len(d: &[u8]) -> (end: usize)
    ensures
        end <= d@.len(),
        trim_end(d@) == d@.subrange(0, end as int),
{
    let mut end = d.len();
    assert(d@.subrange(0, end as int) == d@);
    while end > 0 && is_whitespace(d[end - 1])
        invariant
            end <= d@.len(),
            trim_end(d@) == trim_end(d@.subrange(0, end as int)),
        decreases end,
    {
        assert(d@.subrange(0, end as int).drop_last() == d@.subrange(0, end - 1));
        end -= 1;
    }
    end
}

/// Whether `d` is ASCII without a backslash, tested eight bytes at a time.
pub fn is_plain_ascii(d: &[u8]) -> (r: bool)
    ensures
        r == is_plain(d@),
{
    let n = d.len();
    let mut offset: usize = 0;
    while n - offset >= 8
        invariant
            offset <= n,
            n == d@.len(),
            is_plain(d@.subrange(0, offset as int)),
        decreases n - offset,
    {
        let chunk = slice_subrange(d, offset, offset + 8);
        let wide = le_u64(chunk);
        let escapes = repeat_byte(0x5c);
        proof {
            lemma_high_bits(wide);
            lemma_has_byte(wide, 0x5c);
            lemma_pack8_lanes(
                chunk@[0],
                chunk@[1],
                chunk@[2],
                chunk@[3],
                chunk@[4],
                chunk@[5],
                chunk@[6],
                chunk@[7],
            );
        }
        if wide & 0x8080_8080_8080_8080 != 0 || contains_zero_byte(wide ^ escapes) {
            proof {
                let k = choose|k: int| 0 <= k < 8 && (chunk@[k] >= 0x80 || chunk@[k] == 0x5c);
                assert(d@[offset + k] == chunk@[k]);
            }
            return false;
        }
        proof {
            let next = d@.subrange(0, offset + 8);
            assert forall|j: int| 0 <= j < next.len() implies (#[trigger] next[j]) < 0x80
                && next[j] != 0x5c by {
                if j < offset {
                    assert(next[j] == d@.subrange(0, offset as int)[j]);
                } else {
                    assert(next[j] == chunk@[j - offset]);
                }
            }
        }
        offset += 8;
    }
    while offset < n
        invariant
            offset <= n,
            n == d@.len(),
            is_plain(d@.subrange(0, offset as int)),
        decreases n - offset,
    {
        let byte = d[offset];
        if byte >= 0x80 || byte == 0x5c {
            return false;
        }
        proof {
            let next = d@.subrange(0, offset + 1);
            assert forall|j: int| 0 <= j < next.len() implies (#[trigger] next[j]) < 0x80
                && next[j] != 0x5c by {
                if j < offset {
                    assert(next[j] == d@.subrange(0, offset as int)[j]);
                }
            }
        }
        offset += 1;
    }
    assert(d@.subrange(0, n as int) == d@);
    true
}

/// Decodes Windows-1252 bytes into a fresh string, reading the escapes.
pub fn windows_1252_unescape(d: &[u8]) -> (r: String)
    ensures
        r@ == lookup(unescape(d@, 0)),
{
    let n = d.len();
    let mut result = String::new();
    let mut i: usize = 0;
    assert(result@ + lookup(unescape(d@, 0)) == lookup(unescape(d@, 0)));
    while i < n
        invariant
            i <= n,
            n == d@.len(),
            result@ + lookup(unescape(d@, i as int)) == lookup(unescape(d@, 0)),
        decreases n - i,
    {
        let ghost before = result@;
        let c = d[i];
        if c != 0x5c {
            result.push(windows_1252_char(c));
            proof {
                lemma_lookup_first(c, unescape(d@, i + 1));
                assert(before.push(cp1252(c)) + lookup(unescape(d@, i + 1)) == before + (seq![
                    cp1252(c),
                ] + lookup(unescape(d@, i + 1))));
            }
            i += 1;
        } else if n - i > 1 {
            let escaped = d[i + 1];
            result.push(windows_1252_char(escaped));
            proof {
                lemma_lookup_first(escaped, unescape(d@, i + 2));
                assert(before.push(cp1252(escaped)) + lookup(unescape(d@, i + 2)) == before + (
                seq![cp1252(escaped)] + lookup(unescape(d@, i + 2))));
            }
            i += 2;
        } else {
            proof {
                assert(unescape(d@, i + 1) == Seq::<u8>::empty());
            }
            i += 1;
        }
    }
    proof {
        assert(lookup(unescape(d@, n as int)) == Seq::<char>::empty());
        assert(result@ + Seq::<char>::empty() == result@);
    }
    result
}

/// Decodes a Windows-1252 scalar into an owned string.
pub fn windows_1252_to_utf8_owned(d: &[u8]) -> (r: String)
    ensures
        r@ == decode_windows_1252(d@),
{
    let end = trimmed_len(d);
    windows_1252_unescape(slice_subrange(d, 0, end))
}

/// Decodes a Windows-1252 scalar. The bytes are borrowed as they stand where
/// they are their own text: ASCII, no backslash, no whitespace at the end.
/// Otherwise a new string is built.
pub fn windows_1252_to_utf8<'a>(d: &'a [u8]) -> (r: Cow<'a, str>)
    ensures
        r@ == decode_windows_1252(d@),
        r is Borrowed <==> trim_end(d@) == d@ && is_plain(d@),
{
    let end = trimmed_len(d);
    if end == d.len() && is_plain_ascii(d) {
        proof {
            assert(d@.subrange(0, end as int) == d@);
            lemma_plain_text(d@);
        }
        match core::str::from_utf8(d) {
            Ok(s) => {
                proof {
                    broadcast use vstd::utf8::encode_utf8_decode_utf8;

                    assert(decode_utf8(encode_utf8(s@)) == s@);
                }
                return Cow::Borrowed(s);
            },
            Err(_) => {},
        }
    }
    proof {
        if trim_end(d@) == d@ {
            assert(d@.subrange(0, d@.len() as int) == d@);
        }
    }
    Cow::Owned(windows_1252_unescape(slice_subrange(d, 0, end)))
}

/// Looking up goes byte by byte.
pub proof fn lemma_lookup_first(b: u8, rest: Seq<u8>)
    ensures
        lookup(seq![b] + rest) == seq![cp1252(b)] + lookup(rest),
{
}

/// Bytes without a backslash hold no escape to read.
pub proof fn lemma_unescape_plain(s: Seq<u8>, from: int)
    requires
        0 <= from <= s.len(),
        forall|i: int| from <= i < s.len() ==> (#[trigger] s[i]) != 0x5c,
    ensures
        unescape(s, from) == s.subrange(from, s.len() as int),
    decreases s.len() - from,
{
    if from < s.len() {
        lemma_unescape_plain(s, from + 1);
        assert(seq![s[from]] + s.subrange(from + 1, s.len() as int) == s.subrange(
            from,
            s.len() as int,
        ));
    }
}

/// The text of plain bytes is the bytes themselves, read as UTF-8.
pub proof fn lemma_plain_text(s: Seq<u8>)
    requires
        is_plain(s),
    ensures
        valid_utf8(s),
        decode_utf8(s) == lookup(unescape(s, 0)),
{
    broadcast use {
        vstd::utf8::is_ascii_chars_encode_utf8,
        vstd::utf8::encode_utf8_valid_utf8,
        vstd::utf8::encode_utf8_decode_utf8,
    };

    lemma_unescape_plain(s, 0);
    assert(s.subrange(0, s.len() as int) == s);
    let chars = lookup(s);
    assert(is_ascii_chars(chars)) by {
        assert forall|i: int| 0 <= i < chars.len() implies '\0' <= #[trigger] chars[i]
            <= '\u{7f}' by {
            assert(chars[i] == s[i] as char);
        }
    }
    assert(encode_utf8(chars) =~= s) by {
        assert forall|i: int| 0 <= i < s.len() implies (#[trigger] chars[i] as u8) == s[i] by {
            assert(chars[i] == s[i] as char);
        }
    }
}

/// An escaped quote is a quote, and an escaped backslash is one backslash.
pub proof fn lemma_escapes(s: Seq<u8>, from: int)
    requires
        0 <= from,
        from + 1 < s.len(),
        s[from] == 0x5c,
    ensures
        unescape(s, from) == seq![s[from + 1]] + unescape(s, from + 2),
        unescape(s, from).len() > 0,
        s[from + 1] == 0x22 ==> unescape(s, from)[0] == 0x22,
        s[from + 1] == 0x5c ==> unescape(s, from)[0] == 0x5c,
{
}

} // verus!
