//! The canonical text of a tape: what one would write to have the parser
//! write the tape again.
//!
//! Every token is set off by one space. A scalar is quoted wherever quotes
//! can hold it, every key is followed by `=`, and the three channels of a
//! colour are written in decimal digits.

use vstd::prelude::*;
use crate::data::{spec_is_boundary, spec_is_whitespace, Rgb};
use crate::number::{all_digits, decimal_value, is_digit};
use crate::text::model::{closing_quote, rgb_word, scalar_len, skip_ws, tail, Token};

verus! {

/// Where in a document a token stands.
pub enum Place {
    /// Where a key is expected: at the start of an object or of the document,
    /// and behind every value
    Key,
    /// Behind a key
    Value,
    /// Inside an array
    Element,
}

/// The place behind a value that stands at `place`.
pub open spec fn behind(place: Place) -> Place {
    match place {
        Place::Element => Place::Element,
        _ => Place::Key,
    }
}

/// The bytes can stand between quotes: the quote that follows them is the
/// first one that no backslash escapes.
pub open spec fn quotable(b: Seq<u8>) -> bool {
    closing_quote(b.push(0x22), 0) == Some(b.len() as int)
}

/// The bytes can stand without quotes: there is at least one, and none of
/// them is a boundary byte.
pub open spec fn bare_safe(b: Seq<u8>) -> bool {
    b.len() > 0 && forall|i: int| 0 <= i < b.len() ==> !spec_is_boundary(#[trigger] b[i])
}

/// The bytes can be written as a scalar, with quotes or without.
pub open spec fn scalar_ok(b: Seq<u8>) -> bool {
    quotable(b) || bare_safe(b)
}

/// A scalar as it is written: between quotes where they can hold it.
pub open spec fn scalar_text(b: Seq<u8>) -> Seq<u8> {
    if quotable(b) {
        seq![0x22u8] + b + seq![0x22u8]
    } else {
        b
    }
}

/// A number in decimal digits.
pub open spec fn digits(x: nat) -> Seq<u8>
    decreases x,
{
    if x < 10 {
        seq![(0x30 + x) as u8]
    } else {
        digits(x / 10).push((0x30 + x % 10) as u8)
    }
}

/// A colour as it is written: `rgb{ r g b}`.
pub open spec fn rgb_text(c: Rgb) -> Seq<u8> {
    rgb_word() + seq![0x7bu8, 0x20u8] + digits(c.r as nat) + seq![0x20u8] + digits(c.g as nat)
        + seq![0x20u8] + digits(c.b as nat) + seq![0x7du8]
}

/// The tokens from `lo` up to `hi`, the first of which stands at `place`,
/// can be written so that the parser reads them again: keys are scalars,
/// objects are not empty, colours are values of keys, and every container
/// ends at the `End` that points back at it.
#[verifier::opaque]
pub open spec fn printable(t: Seq<Token>, lo: int, hi: int, place: Place) -> bool
    decreases hi - lo,
{
    if lo >= hi {
        lo == hi
    } else {
        match place {
            Place::Key => t[lo] matches Token::Scalar(b) && scalar_ok(b) && printable(
                t,
                lo + 1,
                hi,
                Place::Value,
            ),
            _ => match t[lo] {
                Token::Scalar(b) => scalar_ok(b) && printable(t, lo + 1, hi, behind(place)),
                Token::Rgb(_) => place is Value && printable(t, lo + 1, hi, behind(place)),
                Token::Array(e) => lo < e < hi && t[e] == Token::End(lo) && printable(
                    t,
                    lo + 1,
                    e,
                    Place::Element,
                ) && printable(t, e + 1, hi, behind(place)),
                Token::Object(e) => lo + 1 < e < hi && t[e] == Token::End(lo) && printable(
                    t,
                    lo + 1,
                    e,
                    Place::Key,
                ) && printable(t, e + 1, hi, behind(place)),
                Token::End(_) => false,
            },
        }
    }
}

/// The place behind the tokens from `lo` up to `hi`, the first of which
/// stands at `place`.
#[verifier::opaque]
pub open spec fn place_after(t: Seq<Token>, lo: int, hi: int, place: Place) -> Place
    decreases hi - lo,
{
    if lo >= hi {
        place
    } else {
        match place {
            Place::Key => place_after(t, lo + 1, hi, Place::Value),
            _ => match t[lo] {
                Token::Array(e) | Token::Object(e) => if lo < e < hi {
                    place_after(t, e + 1, hi, behind(place))
                } else {
                    place
                },
                _ => place_after(t, lo + 1, hi, behind(place)),
            },
        }
    }
}

/// The canonical text of the tokens from `lo` up to `hi`, the first of
/// which stands at `place`.
#[verifier::opaque]
pub open spec fn text(t: Seq<Token>, lo: int, hi: int, place: Place) -> Seq<u8>
    decreases hi - lo,
{
    if lo >= hi {
        Seq::empty()
    } else {
        match place {
            Place::Key => match t[lo] {
                Token::Scalar(b) => seq![0x20u8] + scalar_text(b) + seq![0x3du8] + text(
                    t,
                    lo + 1,
                    hi,
                    Place::Value,
                ),
                _ => Seq::empty(),
            },
            _ => match t[lo] {
                Token::Scalar(b) => seq![0x20u8] + scalar_text(b) + text(
                    t,
                    lo + 1,
                    hi,
                    behind(place),
                ),
                Token::Rgb(c) => seq![0x20u8] + rgb_text(c) + text(t, lo + 1, hi, behind(place)),
                Token::Array(e) => if lo < e < hi {
                    seq![0x20u8, 0x7bu8] + text(t, lo + 1, e, Place::Element) + seq![
                        0x20u8,
                        0x7du8,
                    ] + text(t, e + 1, hi, behind(place))
                } else {
                    Seq::empty()
                },
                Token::Object(e) => if lo < e < hi {
                    seq![0x20u8, 0x7bu8] + text(t, lo + 1, e, Place::Key) + seq![0x20u8, 0x7du8]
                        + text(t, e + 1, hi, behind(place))
                } else {
                    Seq::empty()
                },
                Token::End(_) => Seq::empty(),
            },
        }
    }
}

/// A whole tape can be written as a document: it is printable from a key
/// on, and no key is left without its value.
pub open spec fn printable_document(t: Seq<Token>) -> bool {
    printable(t, 0, t.len() as int, Place::Key) && place_after(t, 0, t.len() as int, Place::Key)
        is Key
}

/// The canonical text of a whole tape.
pub open spec fn canonical_text(t: Seq<Token>) -> Seq<u8> {
    text(t, 0, t.len() as int, Place::Key)
}

/// A quote is found at the same place whatever follows it.
pub proof fn lemma_closing_quote_prefix(x: Seq<u8>, y: Seq<u8>, from: int)
    requires
        0 <= from,
        closing_quote(x, from) is Some,
    ensures
        closing_quote(x + y, from) == closing_quote(x, from),
    decreases x.len() + 1 - from,
{
    if from < x.len() {
        assert((x + y)[from] == x[from]);
        if x[from] == 0x5c {
            lemma_closing_quote_prefix(x, y, from + 2);
        } else if x[from] != 0x22 {
            lemma_closing_quote_prefix(x, y, from + 1);
        }
    }
}

/// A quote is found one place further on behind one more byte.
pub proof fn lemma_closing_quote_shift(c: u8, x: Seq<u8>, from: int)
    requires
        0 <= from,
    ensures
        closing_quote(seq![c] + x, from + 1) == (match closing_quote(x, from) {
            Some(q) => Some(q + 1),
            None => None,
        }),
    decreases x.len() + 1 - from,
{
    let s = seq![c] + x;
    if from < x.len() {
        assert(s[from + 1] == x[from]);
        if x[from] == 0x5c {
            lemma_closing_quote_shift(c, x, from + 2);
        } else if x[from] != 0x22 {
            lemma_closing_quote_shift(c, x, from + 1);
        }
    }
}

/// The quote behind quotable bytes closes them.
pub proof fn lemma_quoted(b: Seq<u8>, r: Seq<u8>)
    requires
        quotable(b),
    ensures
        closing_quote(seq![0x22u8] + b + seq![0x22u8] + r, 1) == Some((b.len() + 1) as int),
        (seq![0x22u8] + b + seq![0x22u8] + r).subrange(1, (b.len() + 1) as int) == b,
        tail(seq![0x22u8] + b + seq![0x22u8] + r, (b.len() + 2) as int) == r,
        (seq![0x22u8] + b + seq![0x22u8] + r)[0] == 0x22,
{
    let x = b.push(0x22);
    lemma_closing_quote_prefix(x, r, 0);
    lemma_closing_quote_shift(0x22, x + r, 0);
    assert(seq![0x22u8] + (x + r) == seq![0x22u8] + b + seq![0x22u8] + r);
}

/// Bytes that can stand without quotes end at the boundary byte behind
/// them, or with the input.
pub proof fn lemma_bare(b: Seq<u8>, r: Seq<u8>)
    requires
        bare_safe(b),
        r.len() == 0 || spec_is_boundary(r[0]),
    ensures
        scalar_len(b + r) == b.len(),
        (b + r).subrange(0, b.len() as int) == b,
        tail(b + r, b.len() as int) == r,
        !spec_is_boundary((b + r)[0]),
{
    let s = b + r;
    assert forall|j: int| 0 <= j < b.len() implies !spec_is_boundary(#[trigger] s[j]) by {
        assert(s[j] == b[j]);
    }
    crate::text::model::lemma_find_boundary_run(s, 0, b.len() as int);
    if r.len() > 0 {
        assert(s[b.len() as int] == r[0]);
    }
    assert(s[0] == b[0]);
}

/// One space before a token is all that is skipped.
pub proof fn lemma_skip_one_space(r: Seq<u8>)
    requires
        r.len() > 0,
        !spec_is_whitespace(r[0]),
        r[0] != 0x23,
    ensures
        skip_ws(seq![0x20u8] + r, 0, false) == 1,
        tail(seq![0x20u8] + r, 1) == r,
        skip_ws(r, 0, false) == 0,
        tail(r, 0) == r,
{
    let s = seq![0x20u8] + r;
    assert(s[0] == 0x20);
    assert(s[1] == r[0]);
    assert(skip_ws(s, 1, false) == 1);
}

/// The digits of a number are digits, and they write the number.
pub proof fn lemma_digits(x: nat)
    ensures
        digits(x).len() > 0,
        all_digits(digits(x)),
        decimal_value(digits(x)) == x,
        bare_safe(digits(x)),
    decreases x,
{
    if x < 10 {
        let d = digits(x);
        assert(d.len() == 1);
        assert(d[0] == (0x30 + x) as u8);
        assert(d.drop_last().len() == 0);
        assert(decimal_value(d.drop_last()) == 0);
    } else {
        lemma_digits(x / 10);
        let d = digits(x);
        let e = digits(x / 10);
        assert(d.drop_last() == e);
        assert(d.last() == (0x30 + x % 10) as u8);
        assert forall|i: int| 0 <= i < d.len() implies is_digit(#[trigger] d[i]) by {
            if i < e.len() {
                assert(d[i] == e[i]);
            }
        }
        assert forall|i: int| 0 <= i < d.len() implies !spec_is_boundary(#[trigger] d[i]) by {
            assert(is_digit(d[i]));
        }
    }
    let d = digits(x);
    assert forall|i: int| 0 <= i < d.len() implies !spec_is_boundary(#[trigger] d[i]) by {
        assert(is_digit(d[i]));
    }
}

/// The word `rgb` can stand between quotes.
pub proof fn lemma_rgb_word_quotable()
    ensures
        quotable(rgb_word()),
{
    let x = rgb_word().push(0x22);
    assert(x.len() == 4);
    assert(x[0] == 0x72 && x[1] == 0x67 && x[2] == 0x62 && x[3] == 0x22);
    assert(closing_quote(x, 3) == Some(3int));
    assert(closing_quote(x, 2) == Some(3int));
    assert(closing_quote(x, 1) == Some(3int));
}

} // verus!
