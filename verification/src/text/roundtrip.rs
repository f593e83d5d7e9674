//! The parser reads the canonical text of a tape as that tape.

use vstd::prelude::*;
use crate::data::{spec_is_boundary, spec_is_whitespace, Rgb};
use crate::number::parse_u64;
use crate::text::model::{
    channel, link, parse_model, patch, rgb_ahead, rgb_word, run, skip_ws, skipped, start,
    state_over, step, tail, Fault, Machine, ParseState, Step, Token,
};
use crate::text::nesting::{is_open, settled};
use crate::text::print::{
    behind, canonical_text, digits, lemma_bare, lemma_digits, lemma_quoted, lemma_rgb_word_quotable,
    lemma_skip_one_space, place_after, printable, printable_document, quotable, rgb_text, scalar_ok,
    scalar_text, text, Place,
};

verus! {

/// The state in which the parser reads a token that stands at `place`.
pub open spec fn state_at(place: Place) -> ParseState {
    match place {
        Place::Key => ParseState::Key,
        Place::Value => ParseState::ObjectValue,
        Place::Element => ParseState::ArrayValue,
    }
}

/// What follows a token: a space, or nothing.
pub open spec fn ends_token(r: Seq<u8>) -> bool {
    r.len() == 0 || r[0] == 0x20
}

/// The machine is where a token at `place` is read: no hidden object is
/// open, and the innermost open container is an array exactly where an
/// element is expected.
pub open spec fn fits(m: Machine, place: Place) -> bool {
    &&& m.state == state_at(place)
    &&& m.hidden is None
    &&& 0 <= m.parent
    &&& m.parent == 0 || m.parent < m.tape.len()
    &&& state_over(m.tape, m.parent) == (if place is Element {
        ParseState::ArrayValue
    } else {
        ParseState::Key
    })
}

/// The run goes on from where a turn leaves the machine.
pub proof fn lemma_run_step(total: int, m: Machine, next: Machine)
    requires
        step(total, m) == Step::Goes(next),
    ensures
        run(total, m) == run(total, next),
{
}

/// Two machines that are the same once whitespace is skipped run alike.
pub proof fn lemma_same_skip(total: int, m: Machine, other: Machine)
    requires
        skipped(m) == skipped(other),
    ensures
        run(total, m) == run(total, other),
{
    assert(step(total, m) == step(total, other));
}

/// A text that can be printed starts with a space, as what follows it does.
pub proof fn lemma_text_starts(t: Seq<Token>, lo: int, hi: int, place: Place, r: Seq<u8>)
    requires
        printable(t, lo, hi, place),
        ends_token(r),
    ensures
        ends_token(text(t, lo, hi, place) + r),
{
    reveal_with_fuel(text, 2);
    reveal_with_fuel(printable, 2);
    if lo < hi {
        assert((text(t, lo, hi, place) + r)[0] == text(t, lo, hi, place)[0]);
    } else {
        assert(text(t, lo, hi, place) + r == r);
    }
}

/// One turn reads a scalar: the scalar is on the tape, and what follows it
/// is left to read.
pub proof fn lemma_step_scalar(total: int, m: Machine, b: Seq<u8>, r: Seq<u8>)
    requires
        m.rest == seq![0x20u8] + scalar_text(b) + r,
        scalar_ok(b),
        r.len() == 0 || spec_is_boundary(r[0]),
        m.state == ParseState::Key || m.state == ParseState::ObjectValue || m.state
            == ParseState::ArrayValue || m.state == ParseState::ParseOpen,
    ensures
        step(total, m) == Step::Goes(
            Machine {
                rest: r,
                tape: m.tape.push(Token::Scalar(b)),
                state: match m.state {
                    ParseState::Key => ParseState::KeyValueSeparator,
                    ParseState::ObjectValue => ParseState::Key,
                    ParseState::ParseOpen => ParseState::FirstValue,
                    _ => ParseState::ArrayValue,
                },
                ..m
            },
        ),
{
    let x = scalar_text(b) + r;
    assert(m.rest == seq![0x20u8] + x);
    if quotable(b) {
        lemma_quoted(b, r);
        assert(x == seq![0x22u8] + b + seq![0x22u8] + r);
        assert(x[0] == 0x22);
        lemma_skip_one_space(x);
        assert(!rgb_ahead(x));
    } else {
        lemma_bare(b, r);
        assert(x == b + r);
        lemma_skip_one_space(x);
        assert(!rgb_ahead(x)) by {
            if rgb_ahead(x) {
                if b.len() > 3 {
                    assert(x[3] == b[3]);
                } else if b.len() == 3 {
                    assert(b =~= rgb_word()) by {
                        assert(x[0] == b[0] && x[1] == b[1] && x[2] == b[2]);
                    }
                    lemma_rgb_word_quotable();
                } else {
                    assert(x[b.len() as int] == r[0]);
                }
            }
        }
    }
    assert(skipped(m).rest == x);
}

/// Two machines differ in nothing that the run can still see: in no more
/// than the colour channels that will be read anew before they are used.
pub open spec fn alike(m: Machine, other: Machine) -> bool {
    &&& m.rest == other.rest
    &&& m.state == other.state
    &&& m.parent == other.parent
    &&& m.hidden == other.hidden
    &&& m.tape == other.tape
    &&& (m.state == ParseState::RgbG || m.state == ParseState::RgbB || m.state
        == ParseState::RgbClose) ==> m.red == other.red
    &&& (m.state == ParseState::RgbB || m.state == ParseState::RgbClose) ==> m.green
        == other.green
    &&& m.state == ParseState::RgbClose ==> m.blue == other.blue
}

/// Machines that are alike run alike.
pub proof fn lemma_run_alike(total: int, m: Machine, other: Machine)
    requires
        alike(m, other),
    ensures
        run(total, m) == run(total, other),
    decreases crate::text::model::fuel(m),
{
    assert(skipped(m).rest == skipped(other).rest);
    match step(total, m) {
        Step::Ends(_) => {},
        Step::Goes(next) => {
            crate::text::model::lemma_step_burns_fuel(total, m);
            let next2 = step(total, other)->Goes_0;
            assert(alike(next, next2));
            lemma_run_alike(total, next, next2);
        },
    }
}

/// One turn reads the word `rgb` where a value is expected.
proof fn lemma_step_rgb_word(total: int, m: Machine, r: Seq<u8>)
    requires
        m.rest == seq![0x20u8] + (rgb_word() + (seq![0x7bu8] + r)),
        m.state == ParseState::ObjectValue,
    ensures
        step(total, m) == Step::Goes(
            Machine { rest: seq![0x7bu8] + r, state: ParseState::RgbOpen, ..m },
        ),
{
    let x = rgb_word() + (seq![0x7bu8] + r);
    assert(x[0] == 0x72 && x[1] == 0x67 && x[2] == 0x62 && x[3] == 0x7b);
    lemma_skip_one_space(x);
    assert(tail(x, 3) == seq![0x7bu8] + r);
}

/// One turn reads the `{` of a colour.
proof fn lemma_step_rgb_open(total: int, m: Machine, r: Seq<u8>)
    requires
        m.rest == seq![0x7bu8] + r,
        m.state == ParseState::RgbOpen,
    ensures
        step(total, m) == Step::Goes(Machine { rest: r, state: ParseState::RgbR, ..m }),
{
    assert(m.rest[0] == 0x7b);
    assert(skip_ws(m.rest, 0, false) == 0);
    assert(tail(m.rest, 0) == m.rest);
    assert(tail(m.rest, 1) == r);
}

/// One turn reads a colour channel: its digits, up to the boundary byte
/// behind them.
proof fn lemma_step_channel(total: int, m: Machine, x: u32, r: Seq<u8>)
    requires
        m.rest == seq![0x20u8] + (digits(x as nat) + r),
        r.len() > 0,
        spec_is_boundary(r[0]),
        m.state == ParseState::RgbR || m.state == ParseState::RgbG || m.state
            == ParseState::RgbB,
    ensures
        step(total, m) == Step::Goes(
            match m.state {
                ParseState::RgbR => Machine { rest: r, state: ParseState::RgbG, red: x, ..m },
                ParseState::RgbG => Machine { rest: r, state: ParseState::RgbB, green: x, ..m },
                _ => Machine { rest: r, state: ParseState::RgbClose, blue: x, ..m },
            },
        ),
{
    let d = digits(x as nat);
    lemma_digits(x as nat);
    lemma_bare(d, r);
    assert((d + r)[0] == d[0]);
    lemma_skip_one_space(d + r);
    assert(parse_u64(d) == Ok::<u64, crate::scalar::ScalarError>(x as u64));
    assert(channel(d + r) == Ok::<u32, Seq<u8>>(x));
    assert(skipped(m).rest == d + r);
}

/// One turn reads the `}` of a colour: the colour is on the tape.
proof fn lemma_step_rgb_close(total: int, m: Machine, r: Seq<u8>)
    requires
        m.rest == seq![0x7du8] + r,
        m.state == ParseState::RgbClose,
    ensures
        step(total, m) == Step::Goes(
            Machine {
                rest: r,
                state: ParseState::Key,
                tape: m.tape.push(Token::Rgb(Rgb { r: m.red, g: m.green, b: m.blue })),
                ..m
            },
        ),
{
    assert(m.rest[0] == 0x7d);
    assert(skip_ws(m.rest, 0, false) == 0);
    assert(tail(m.rest, 0) == m.rest);
    assert(tail(m.rest, 1) == r);
}

/// The turns that read a colour leave it on the tape.
pub proof fn lemma_run_rgb(total: int, m: Machine, c: Rgb, r: Seq<u8>)
    requires
        m.rest == seq![0x20u8] + rgb_text(c) + r,
        m.state == ParseState::ObjectValue,
    ensures
        run(total, m) == run(
            total,
            Machine { rest: r, tape: m.tape.push(Token::Rgb(c)), state: ParseState::Key, ..m },
        ),
{
    let r5 = seq![0x7du8] + r;
    let r4 = seq![0x20u8] + (digits(c.b as nat) + r5);
    let r3 = seq![0x20u8] + (digits(c.g as nat) + r4);
    let r2 = seq![0x20u8] + (digits(c.r as nat) + r3);
    assert(m.rest == seq![0x20u8] + (rgb_word() + (seq![0x7bu8] + r2))) by {
        assert(rgb_text(c) + r == rgb_word() + (seq![0x7bu8] + r2));
    }
    let m1 = Machine { rest: seq![0x7bu8] + r2, state: ParseState::RgbOpen, ..m };
    lemma_step_rgb_word(total, m, r2);
    lemma_run_step(total, m, m1);
    let m2 = Machine { rest: r2, state: ParseState::RgbR, ..m };
    lemma_step_rgb_open(total, m1, r2);
    lemma_run_step(total, m1, m2);
    let m3 = Machine { rest: r3, state: ParseState::RgbG, red: c.r, ..m };
    assert(r3[0] == 0x20);
    lemma_step_channel(total, m2, c.r, r3);
    lemma_run_step(total, m2, m3);
    let m4 = Machine { rest: r4, state: ParseState::RgbB, red: c.r, green: c.g, ..m };
    assert(r4[0] == 0x20);
    lemma_step_channel(total, m3, c.g, r4);
    lemma_run_step(total, m3, m4);
    let m5 = Machine {
        rest: r5,
        state: ParseState::RgbClose,
        red: c.r,
        green: c.g,
        blue: c.b,
        ..m
    };
    assert(r5[0] == 0x7d);
    lemma_step_channel(total, m4, c.b, r5);
    lemma_run_step(total, m4, m5);
    let m6 = Machine {
        rest: r,
        tape: m.tape.push(Token::Rgb(c)),
        state: ParseState::Key,
        red: c.r,
        green: c.g,
        blue: c.b,
        ..m
    };
    lemma_step_rgb_close(total, m5, r);
    lemma_run_step(total, m5, m6);
    lemma_run_alike(
        total,
        m6,
        Machine { rest: r, tape: m.tape.push(Token::Rgb(c)), state: ParseState::Key, ..m },
    );
}

/// The machine after the tokens from `lo` up to `hi` have been read, with
/// `r` left to read.
pub open spec fn landed(
    m: Machine,
    t: Seq<Token>,
    lo: int,
    hi: int,
    place: Place,
    r: Seq<u8>,
) -> Machine {
    Machine {
        rest: r,
        tape: m.tape + t.subrange(lo, hi),
        state: state_at(place_after(t, lo, hi, place)),
        ..m
    }
}

/// The text of a token starts with a space and a byte that starts a token.
pub proof fn lemma_text_head(t: Seq<Token>, lo: int, hi: int, place: Place)
    requires
        printable(t, lo, hi, place),
        lo < hi,
    ensures
        text(t, lo, hi, place).len() >= 2,
        text(t, lo, hi, place)[0] == 0x20,
        !spec_is_whitespace(text(t, lo, hi, place)[1]),
        text(t, lo, hi, place)[1] != 0x23,
        text(t, lo, hi, place)[1] != 0x3d,
        text(t, lo, hi, place)[1] != 0x7d,
        is_open(t[lo]) ==> text(t, lo, hi, place)[1] == 0x7b,
        !(t[lo] is End),
        place is Key ==> t[lo] is Scalar,
        place is Element ==> !(t[lo] is Rgb),
{
    reveal_with_fuel(text, 2);
    reveal_with_fuel(printable, 2);
    let x = text(t, lo, hi, place);
    match t[lo] {
        Token::Scalar(b) => {
            let w = scalar_text(b);
            assert(w.len() > 0 && !spec_is_whitespace(w[0]) && w[0] != 0x23 && w[0] != 0x3d
                && w[0] != 0x7d) by {
                if quotable(b) {
                    assert(w[0] == 0x22);
                } else {
                    assert(!spec_is_boundary(b[0]));
                }
            }
            assert(x[1] == w[0]);
        },
        Token::Rgb(c) => {
            assert(rgb_text(c)[0] == 0x72);
            assert(x[1] == rgb_text(c)[0]);
        },
        _ => {
            assert(x[1] == 0x7b);
        },
    }
}

/// Behind the elements of an array an element is expected.
pub proof fn lemma_place_after_element(t: Seq<Token>, lo: int, hi: int)
    ensures
        place_after(t, lo, hi, Place::Element) is Element,
    decreases hi - lo,
{
    reveal_with_fuel(place_after, 2);
    if lo < hi {
        match t[lo] {
            Token::Array(e) | Token::Object(e) => {
                if lo < e < hi {
                    lemma_place_after_element(t, e + 1, hi);
                }
            },
            _ => {
                lemma_place_after_element(t, lo + 1, hi);
            },
        }
    }
}

/// Behind the keys and values of an object a key or a value is expected.
pub proof fn lemma_place_after_pairs(t: Seq<Token>, lo: int, hi: int, place: Place)
    requires
        !(place is Element),
    ensures
        !(place_after(t, lo, hi, place) is Element),
    decreases hi - lo,
{
    reveal_with_fuel(place_after, 2);
    if lo < hi {
        match place {
            Place::Key => {
                lemma_place_after_pairs(t, lo + 1, hi, Place::Value);
            },
            _ => match t[lo] {
                Token::Array(e) | Token::Object(e) => {
                    if lo < e < hi {
                        lemma_place_after_pairs(t, e + 1, hi, Place::Key);
                    }
                },
                _ => {
                    lemma_place_after_pairs(t, lo + 1, hi, Place::Key);
                },
            },
        }
    }
}

/// One turn reads the `{` of a container: its placeholder is on the tape.
pub proof fn lemma_step_open(total: int, m: Machine, r: Seq<u8>)
    requires
        m.rest == seq![0x20u8, 0x7bu8] + r,
        m.state == ParseState::ObjectValue || m.state == ParseState::ArrayValue,
    ensures
        step(total, m) == Step::Goes(
            Machine {
                rest: r,
                tape: m.tape.push(Token::Array(0)),
                state: ParseState::ParseOpen,
                ..m
            },
        ),
{
    let x = seq![0x7bu8] + r;
    assert(m.rest == seq![0x20u8] + x);
    assert(x[0] == 0x7b);
    lemma_skip_one_space(x);
    assert(tail(x, 1) == r);
    assert(!rgb_ahead(x));
}

/// One turn reads the `}` of an array: the array points at its `End`.
pub proof fn lemma_step_close_array(total: int, m: Machine, r: Seq<u8>)
    requires
        m.rest == seq![0x20u8, 0x7du8] + r,
        m.state == ParseState::ArrayValue,
    ensures
        step(total, m) == Step::Goes(
            Machine {
                rest: r,
                state: state_over(m.tape, link(m.tape, m.parent)),
                parent: link(m.tape, m.parent),
                tape: patch(m.tape, m.parent, Token::Array(m.tape.len() as int)).push(
                    Token::End(m.parent),
                ),
                ..m
            },
        ),
{
    let x = seq![0x7du8] + r;
    assert(m.rest == seq![0x20u8] + x);
    assert(x[0] == 0x7d);
    lemma_skip_one_space(x);
    assert(tail(x, 1) == r);
}

/// The turns that read the `}` of an object, behind a value or behind a
/// key that has none: the object points at its `End`.
pub proof fn lemma_run_close_object(total: int, m: Machine, r: Seq<u8>)
    requires
        m.rest == seq![0x20u8, 0x7du8] + r,
        m.state == ParseState::Key || m.state == ParseState::ObjectValue,
        m.hidden is None,
        m.parent != 0,
    ensures
        run(total, m) == run(
            total,
            Machine {
                rest: r,
                state: state_over(m.tape, link(m.tape, m.parent)),
                parent: link(m.tape, m.parent),
                tape: patch(m.tape, m.parent, Token::Object(m.tape.len() as int)).push(
                    Token::End(m.parent),
                ),
                ..m
            },
        ),
{
    let x = seq![0x7du8] + r;
    assert(m.rest == seq![0x20u8] + x);
    assert(x[0] == 0x7d);
    lemma_skip_one_space(x);
    assert(tail(x, 1) == r);
    assert(!rgb_ahead(x));
    let closed = Machine {
        rest: r,
        state: state_over(m.tape, link(m.tape, m.parent)),
        parent: link(m.tape, m.parent),
        tape: patch(m.tape, m.parent, Token::Object(m.tape.len() as int)).push(
            Token::End(m.parent),
        ),
        ..m
    };
    if m.state == ParseState::ObjectValue {
        let key = Machine { rest: x, state: ParseState::Key, ..m };
        assert(step(total, m) == Step::Goes(key));
        lemma_run_step(total, m, key);
        assert(step(total, key) == Step::Goes(closed));
        lemma_run_step(total, key, closed);
    } else {
        assert(step(total, m) == Step::Goes(closed));
        lemma_run_step(total, m, closed);
    }
}

/// Nothing is printed for no tokens.
proof fn lemma_unfold_none(t: Seq<Token>, lo: int, place: Place)
    ensures
        text(t, lo, lo, place) == Seq::<u8>::empty(),
        place_after(t, lo, lo, place) == place,
{
    reveal_with_fuel(text, 2);
    reveal_with_fuel(place_after, 2);
}

/// What it means that a key can be printed, and how it is printed.
proof fn lemma_unfold_key(t: Seq<Token>, lo: int, hi: int)
    requires
        lo < hi,
        printable(t, lo, hi, Place::Key),
    ensures
        t[lo] is Scalar,
        scalar_ok(t[lo]->Scalar_0),
        printable(t, lo + 1, hi, Place::Value),
        text(t, lo, hi, Place::Key) == seq![0x20u8] + scalar_text(t[lo]->Scalar_0) + (seq![
            0x3du8,
        ] + text(t, lo + 1, hi, Place::Value)),
        place_after(t, lo, hi, Place::Key) == place_after(t, lo + 1, hi, Place::Value),
{
    reveal_with_fuel(text, 2);
    reveal_with_fuel(printable, 2);
    reveal_with_fuel(place_after, 2);
    let b = t[lo]->Scalar_0;
    assert(seq![0x20u8] + scalar_text(b) + seq![0x3du8] + text(t, lo + 1, hi, Place::Value)
        == seq![0x20u8] + scalar_text(b) + (seq![0x3du8] + text(t, lo + 1, hi, Place::Value)));
}

/// What it means that a value can be printed, and how it is printed.
proof fn lemma_unfold_leaf(t: Seq<Token>, lo: int, hi: int, place: Place)
    requires
        lo < hi,
        !(place is Key),
        t[lo] is Scalar || t[lo] is Rgb,
        printable(t, lo, hi, place),
    ensures
        t[lo] matches Token::Scalar(b) ==> scalar_ok(b) && text(t, lo, hi, place) == seq![
            0x20u8,
        ] + scalar_text(b) + text(t, lo + 1, hi, behind(place)),
        t[lo] matches Token::Rgb(c) ==> place is Value && text(t, lo, hi, place) == seq![0x20u8]
            + rgb_text(c) + text(t, lo + 1, hi, behind(place)),
        printable(t, lo + 1, hi, behind(place)),
        place_after(t, lo, hi, place) == place_after(t, lo + 1, hi, behind(place)),
{
    reveal_with_fuel(text, 2);
    reveal_with_fuel(printable, 2);
    reveal_with_fuel(place_after, 2);
}

/// What it means that a container can be printed, and how it is printed.
proof fn lemma_unfold_container(t: Seq<Token>, lo: int, hi: int, place: Place) -> (e: int)
    requires
        lo < hi,
        !(place is Key),
        is_open(t[lo]),
        printable(t, lo, hi, place),
    ensures
        lo < e < hi,
        t[lo] == Token::Array(e) || t[lo] == Token::Object(e),
        t[lo] is Object ==> lo + 1 < e,
        t[e] == Token::End(lo),
        printable(t, lo + 1, e, if t[lo] is Array {
            Place::Element
        } else {
            Place::Key
        }),
        printable(t, e + 1, hi, behind(place)),
        text(t, lo, hi, place) == seq![0x20u8, 0x7bu8] + (text(
            t,
            lo + 1,
            e,
            if t[lo] is Array {
                Place::Element
            } else {
                Place::Key
            },
        ) + (seq![0x20u8, 0x7du8] + text(t, e + 1, hi, behind(place)))),
        place_after(t, lo, hi, place) == place_after(t, e + 1, hi, behind(place)),
{
    reveal_with_fuel(text, 2);
    reveal_with_fuel(printable, 2);
    reveal_with_fuel(place_after, 2);
    let e = match t[lo] {
        Token::Array(e) => e,
        Token::Object(e) => e,
        _ => 0,
    };
    let inside = if t[lo] is Array {
        Place::Element
    } else {
        Place::Key
    };
    let a = text(t, lo + 1, e, inside);
    let b = text(t, e + 1, hi, behind(place));
    assert(seq![0x20u8, 0x7bu8] + a + seq![0x20u8, 0x7du8] + b == seq![0x20u8, 0x7bu8] + (a + (
    seq![0x20u8, 0x7du8] + b)));
    e
}

/// Tokens read one after the other are on the tape one after the other.
proof fn lemma_tape_join(tape: Seq<Token>, t: Seq<Token>, lo: int, mid: int, hi: int)
    requires
        0 <= lo <= mid <= hi <= t.len(),
    ensures
        (tape + t.subrange(lo, mid)) + t.subrange(mid, hi) == tape + t.subrange(lo, hi),
{
}

/// A container that is closed is on the tape as it was printed: it points
/// at its `End`.
proof fn lemma_tape_close(
    tape: Seq<Token>,
    t: Seq<Token>,
    lo: int,
    e: int,
    opened: Token,
    closed: Token,
)
    requires
        0 <= lo < e < t.len(),
        tape.len() == lo,
        t[lo] == closed,
        t[e] == Token::End(lo),
    ensures
        (tape.push(opened) + t.subrange(lo + 1, e)).update(lo, closed).push(Token::End(lo))
            == tape + t.subrange(lo, e + 1),
        (tape.push(opened) + t.subrange(lo + 1, e)).len() == e,
        (tape.push(opened) + t.subrange(lo + 1, e))[lo] == opened,
{
}

/// The turn that classifies a container as an array, at its first token
/// where that is a `{`, behind its first token where that is a scalar with
/// no `=` behind it.
proof fn lemma_run_classify_array(total: int, m: Machine, r: Seq<u8>)
    requires
        m.state == ParseState::ParseOpen || m.state == ParseState::FirstValue,
        r.len() >= 2,
        m.rest == r,
        r[0] == 0x20,
        !spec_is_whitespace(r[1]),
        r[1] != 0x23,
        r[1] != 0x3d,
        m.state == ParseState::ParseOpen ==> r[1] == 0x7b,
    ensures
        run(total, m) == run(
            total,
            Machine {
                state: ParseState::ArrayValue,
                parent: settled(m),
                tape: patch(m.tape, settled(m), Token::Array(m.parent)),
                ..m
            },
        ),
{
    let y = tail(r, 1);
    assert(r == seq![0x20u8] + y);
    assert(y[0] == r[1]);
    lemma_skip_one_space(y);
    let k = settled(m);
    let classified = Machine {
        rest: y,
        state: ParseState::ArrayValue,
        parent: k,
        tape: patch(m.tape, k, Token::Array(m.parent)),
        ..m
    };
    assert(step(total, m) == Step::Goes(classified));
    lemma_run_step(total, m, classified);
    lemma_same_skip(total, classified, Machine { rest: r, ..classified });
}

/// The turns that read an array that holds nothing.
proof fn lemma_run_empty_array(total: int, m: Machine, t: Seq<Token>, lo: int, r: Seq<u8>)
    requires
        0 < lo,
        lo + 1 < t.len(),
        t[lo] == Token::Array(lo + 1),
        t[lo + 1] == Token::End(lo),
        m.rest == seq![0x20u8, 0x7bu8] + (seq![0x20u8, 0x7du8] + r),
        m.state == ParseState::ObjectValue || m.state == ParseState::ArrayValue,
        m.tape.len() == lo,
        0 <= m.parent < lo,
    ensures
        run(total, m) == run(
            total,
            Machine {
                rest: r,
                tape: m.tape + t.subrange(lo, lo + 2),
                state: state_over(m.tape, m.parent),
                ..m
            },
        ),
{
    let close = seq![0x20u8, 0x7du8] + r;
    lemma_step_open(total, m, close);
    let t1 = m.tape.push(Token::Array(0));
    let m1 = Machine { rest: close, tape: t1, state: ParseState::ParseOpen, ..m };
    lemma_run_step(total, m, m1);
    let x = seq![0x7du8] + r;
    assert(close == seq![0x20u8] + x);
    assert(x[0] == 0x7d);
    lemma_skip_one_space(x);
    assert(tail(x, 1) == r);
    let t2 = t1.update(lo, Token::Array(lo + 1)).push(Token::End(lo));
    assert(t2 == m.tape + t.subrange(lo, lo + 2));
    let m2 = Machine { rest: r, tape: t2, state: state_over(t1, m.parent), ..m };
    assert(step(total, m1) == Step::Goes(m2));
    lemma_run_step(total, m1, m2);
    assert(state_over(t1, m.parent) == state_over(m.tape, m.parent));
}

/// The turns that read the `{` of an array and find out that it is one:
/// from its first element, if that is a container, from what follows it, if
/// it is a scalar. The elements from `k` on are read next.
proof fn lemma_run_enter_array(
    total: int,
    m: Machine,
    t: Seq<Token>,
    lo: int,
    e: int,
    close: Seq<u8>,
) -> (k: int)
    requires
        0 < lo,
        lo + 1 < e <= t.len(),
        printable(t, lo + 1, e, Place::Element),
        m.rest == seq![0x20u8, 0x7bu8] + (text(t, lo + 1, e, Place::Element) + close),
        close.len() >= 2,
        close[0] == 0x20,
        close[1] == 0x7d,
        m.state == ParseState::ObjectValue || m.state == ParseState::ArrayValue,
        m.tape.len() == lo,
    ensures
        lo + 1 <= k <= lo + 2,
        k <= e,
        printable(t, k, e, Place::Element),
        run(total, m) == run(
            total,
            Machine {
                rest: text(t, k, e, Place::Element) + close,
                tape: m.tape.push(Token::Array(m.parent)) + t.subrange(lo + 1, k),
                state: ParseState::ArrayValue,
                parent: lo,
                ..m
            },
        ),
{
    let inner = text(t, lo + 1, e, Place::Element);
    let r0 = inner + close;
    lemma_step_open(total, m, r0);
    let t1 = m.tape.push(Token::Array(0));
    let m1 = Machine { rest: r0, tape: t1, state: ParseState::ParseOpen, ..m };
    lemma_run_step(total, m, m1);
    lemma_text_head(t, lo + 1, e, Place::Element);
    assert(r0[0] == inner[0] && r0[1] == inner[1]);
    if t[lo + 1] is Scalar {
        let b = t[lo + 1]->Scalar_0;
        lemma_unfold_leaf(t, lo + 1, e, Place::Element);
        let inner2 = text(t, lo + 2, e, Place::Element);
        let r2 = inner2 + close;
        assert(r0 == seq![0x20u8] + scalar_text(b) + r2);
        if lo + 2 < e {
            lemma_text_head(t, lo + 2, e, Place::Element);
            assert(r2[0] == inner2[0] && r2[1] == inner2[1]);
        } else {
            lemma_unfold_none(t, lo + 2, Place::Element);
            assert(r2 == close);
        }
        lemma_step_scalar(total, m1, b, r2);
        let t2 = t1.push(Token::Scalar(b));
        let m2 = Machine { rest: r2, tape: t2, state: ParseState::FirstValue, ..m };
        lemma_run_step(total, m1, m2);
        lemma_run_classify_array(total, m2, r2);
        assert(t2.update(lo, Token::Array(m.parent)) == m.tape.push(Token::Array(m.parent))
            + t.subrange(lo + 1, lo + 2));
        lo + 2
    } else {
        lemma_run_classify_array(total, m1, r0);
        assert(t1.update(lo, Token::Array(m.parent)) == m.tape.push(Token::Array(m.parent))
            + t.subrange(lo + 1, lo + 1));
        lo + 1
    }
}

/// The turns that read the `{` of an object, its first key and the `=`
/// behind it. The value of the key is read next.
proof fn lemma_run_enter_object(
    total: int,
    m: Machine,
    t: Seq<Token>,
    lo: int,
    e: int,
    close: Seq<u8>,
)
    requires
        0 < lo,
        lo + 1 < e <= t.len(),
        printable(t, lo + 1, e, Place::Key),
        m.rest == seq![0x20u8, 0x7bu8] + (text(t, lo + 1, e, Place::Key) + close),
        m.state == ParseState::ObjectValue || m.state == ParseState::ArrayValue,
        m.tape.len() == lo,
    ensures
        printable(t, lo + 2, e, Place::Value),
        run(total, m) == run(
            total,
            Machine {
                rest: text(t, lo + 2, e, Place::Value) + close,
                tape: m.tape.push(Token::Object(m.parent)) + t.subrange(lo + 1, lo + 2),
                state: ParseState::ObjectValue,
                parent: lo,
                ..m
            },
        ),
{
    lemma_unfold_key(t, lo + 1, e);
    let b = t[lo + 1]->Scalar_0;
    let r2 = text(t, lo + 2, e, Place::Value) + close;
    let r1 = seq![0x3du8] + r2;
    let r0 = text(t, lo + 1, e, Place::Key) + close;
    assert(r0 == seq![0x20u8] + scalar_text(b) + r1);
    lemma_step_open(total, m, r0);
    let t1 = m.tape.push(Token::Array(0));
    let m1 = Machine { rest: r0, tape: t1, state: ParseState::ParseOpen, ..m };
    lemma_run_step(total, m, m1);
    assert(r1[0] == 0x3d);
    lemma_step_scalar(total, m1, b, r1);
    let t2 = t1.push(Token::Scalar(b));
    let m2 = Machine { rest: r1, tape: t2, state: ParseState::FirstValue, ..m };
    lemma_run_step(total, m1, m2);
    assert(skip_ws(r1, 0, false) == 0);
    assert(tail(r1, 0) == r1);
    assert(tail(r1, 1) == r2);
    let t3 = t2.update(lo, Token::Object(m.parent));
    assert(t3 == m.tape.push(Token::Object(m.parent)) + t.subrange(lo + 1, lo + 2));
    let m3 = Machine {
        rest: r2,
        tape: t3,
        state: ParseState::ObjectValue,
        parent: lo,
        ..m
    };
    assert(step(total, m2) == Step::Goes(m3));
    lemma_run_step(total, m2, m3);
}

/// The turns that read a container and what follows it.
proof fn lemma_run_container(
    total: int,
    m: Machine,
    t: Seq<Token>,
    lo: int,
    hi: int,
    place: Place,
    r: Seq<u8>,
)
    requires
        0 < lo < hi <= t.len(),
        !(place is Key),
        is_open(t[lo]),
        printable(t, lo, hi, place),
        m.rest == text(t, lo, hi, place) + r,
        ends_token(r),
        m.tape.len() == lo,
        fits(m, place),
    ensures
        run(total, m) == run(total, landed(m, t, lo, hi, place, r)),
    decreases hi - lo, 0int,
{
    let tape = m.tape;
    let e = lemma_unfold_container(t, lo, hi, place);
    let after = text(t, e + 1, hi, behind(place)) + r;
    let close = seq![0x20u8, 0x7du8] + after;
    let done = Machine {
        rest: after,
        tape: tape + t.subrange(lo, e + 1),
        state: state_at(behind(place)),
        ..m
    };
    if t[lo] is Array {
        let inner = text(t, lo + 1, e, Place::Element);
        assert(m.rest == seq![0x20u8, 0x7bu8] + (inner + close)) by {
            assert(text(t, lo, hi, place) + r == seq![0x20u8, 0x7bu8] + (inner + close));
        }
        if e == lo + 1 {
            lemma_unfold_none(t, lo + 1, Place::Element);
            assert(inner + close == close);
            lemma_run_empty_array(total, m, t, lo, after);
        } else {
            let k = lemma_run_enter_array(total, m, t, lo, e, close);
            let opened = tape.push(Token::Array(m.parent)) + t.subrange(lo + 1, k);
            let m3 = Machine {
                rest: text(t, k, e, Place::Element) + close,
                tape: opened,
                state: ParseState::ArrayValue,
                parent: lo,
                ..m
            };
            assert(opened[lo] == Token::Array(m.parent));
            lemma_run_text(total, m3, t, k, e, Place::Element, close);
            lemma_place_after_element(t, k, e);
            let m4 = landed(m3, t, k, e, Place::Element, close);
            lemma_tape_join(tape.push(Token::Array(m.parent)), t, lo + 1, k, e);
            lemma_tape_close(tape, t, lo, e, Token::Array(m.parent), Token::Array(e));
            lemma_step_close_array(total, m4, after);
            assert(link(m4.tape, lo) == m.parent);
            assert(state_over(m4.tape, m.parent) == state_at(behind(place)));
            lemma_run_step(total, m4, done);
        }
    } else {
        let inner = text(t, lo + 1, e, Place::Key);
        assert(m.rest == seq![0x20u8, 0x7bu8] + (inner + close)) by {
            assert(text(t, lo, hi, place) + r == seq![0x20u8, 0x7bu8] + (inner + close));
        }
        lemma_run_enter_object(total, m, t, lo, e, close);
        let opened = tape.push(Token::Object(m.parent)) + t.subrange(lo + 1, lo + 2);
        let m3 = Machine {
            rest: text(t, lo + 2, e, Place::Value) + close,
            tape: opened,
            state: ParseState::ObjectValue,
            parent: lo,
            ..m
        };
        assert(opened[lo] == Token::Object(m.parent));
        lemma_run_text(total, m3, t, lo + 2, e, Place::Value, close);
        lemma_place_after_pairs(t, lo + 2, e, Place::Value);
        let m4 = landed(m3, t, lo + 2, e, Place::Value, close);
        lemma_tape_join(tape.push(Token::Object(m.parent)), t, lo + 1, lo + 2, e);
        lemma_tape_close(tape, t, lo, e, Token::Object(m.parent), Token::Object(e));
        lemma_run_close_object(total, m4, after);
        assert(link(m4.tape, lo) == m.parent);
        assert(state_over(m4.tape, m.parent) == state_at(behind(place)));
    }
    assert(run(total, m) == run(total, done));
    lemma_run_text(total, done, t, e + 1, hi, behind(place), r);
    lemma_tape_join(tape, t, lo, e + 1, hi);
}

/// The turns that read the canonical text of the tokens from `lo` up to
/// `hi` write those tokens onto the tape.
pub proof fn lemma_run_text(
    total: int,
    m: Machine,
    t: Seq<Token>,
    lo: int,
    hi: int,
    place: Place,
    r: Seq<u8>,
)
    requires
        0 <= lo <= hi <= t.len(),
        place is Key || lo > 0,
        printable(t, lo, hi, place),
        m.rest == text(t, lo, hi, place) + r,
        ends_token(r),
        m.tape.len() == lo,
        fits(m, place),
    ensures
        run(total, m) == run(total, landed(m, t, lo, hi, place, r)),
    decreases hi - lo, 1int,
{
    let tape = m.tape;
    if lo == hi {
        lemma_unfold_none(t, lo, place);
        assert(text(t, lo, hi, place) + r == r);
        assert(tape + t.subrange(lo, hi) == tape);
        assert(landed(m, t, lo, hi, place, r) == m);
    } else if place is Key {
        lemma_unfold_key(t, lo, hi);
        let b = t[lo]->Scalar_0;
        let r2 = text(t, lo + 1, hi, Place::Value) + r;
        let r1 = seq![0x3du8] + r2;
        assert(m.rest == seq![0x20u8] + scalar_text(b) + r1);
        assert(r1[0] == 0x3d);
        lemma_step_scalar(total, m, b, r1);
        let t1 = tape.push(Token::Scalar(b));
        let m1 = Machine { rest: r1, tape: t1, state: ParseState::KeyValueSeparator, ..m };
        lemma_run_step(total, m, m1);
        assert(skip_ws(r1, 0, false) == 0);
        assert(tail(r1, 0) == r1);
        assert(tail(r1, 1) == r2);
        let m2 = Machine { rest: r2, tape: t1, state: ParseState::ObjectValue, ..m };
        assert(step(total, m1) == Step::Goes(m2));
        lemma_run_step(total, m1, m2);
        lemma_run_text(total, m2, t, lo + 1, hi, Place::Value, r);
        assert(t1 == tape + t.subrange(lo, lo + 1));
        lemma_tape_join(tape, t, lo, lo + 1, hi);
    } else if is_open(t[lo]) {
        lemma_run_container(total, m, t, lo, hi, place, r);
    } else {
        lemma_text_head(t, lo, hi, place);
        lemma_unfold_leaf(t, lo, hi, place);
        let r1 = text(t, lo + 1, hi, behind(place)) + r;
        let t1 = tape.push(t[lo]);
        let m1 = Machine { rest: r1, tape: t1, state: state_at(behind(place)), ..m };
        match t[lo] {
            Token::Scalar(b) => {
                assert(m.rest == seq![0x20u8] + scalar_text(b) + r1);
                lemma_text_starts(t, lo + 1, hi, behind(place), r);
                lemma_step_scalar(total, m, b, r1);
                lemma_run_step(total, m, m1);
            },
            Token::Rgb(c) => {
                assert(m.rest == seq![0x20u8] + rgb_text(c) + r1);
                lemma_run_rgb(total, m, c, r1);
            },
            _ => {},
        }
        lemma_run_text(total, m1, t, lo + 1, hi, behind(place), r);
        assert(t1 == tape + t.subrange(lo, lo + 1));
        lemma_tape_join(tape, t, lo, lo + 1, hi);
    }
}

/// The parser reads the canonical text of a tape that can be written as a
/// document as that very tape.
pub proof fn lemma_parse_canonical_text(t: Seq<Token>)
    requires
        printable_document(t),
    ensures
        parse_model(canonical_text(t)) == Ok::<Seq<Token>, Fault>(t),
{
    let data = canonical_text(t);
    let total = data.len() as int;
    let begin = start(data);
    assert(data + Seq::<u8>::empty() == data);
    lemma_run_text(total, begin, t, 0, t.len() as int, Place::Key, Seq::empty());
    let end = landed(begin, t, 0, t.len() as int, Place::Key, Seq::empty());
    assert(end.tape == t) by {
        assert(Seq::<Token>::empty() + t.subrange(0, t.len() as int) == t);
    }
    assert(skipped(end).rest.len() == 0);
    assert(step(total, end) == Step::Ends(Ok(t)));
}

} // verus!
