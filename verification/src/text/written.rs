//! What the parser writes can be printed: the tape of a parse is a
//! document of keys and values, with arrays of elements and objects of keys
//! and values in them.

use vstd::prelude::*;
use crate::data::{spec_is_boundary, spec_is_whitespace};
use crate::text::model::{
    closing_quote, find_boundary, fuel, lemma_closing_quote_bounds, lemma_find_boundary_bounds,
    lemma_step_burns_fuel, parse_model, rgb_word, run, scalar_len, skip_ws, skipped, start, step,
    Machine, ParseState, Step, Token,
};
use crate::text::nesting::{
    held, inv, is_open, lemma_step_inv, settled,
};
use crate::text::print::{
    bare_safe, behind, lemma_rgb_word_quotable, place_after, printable, printable_document,
    quotable, scalar_ok, Place,
};

verus! {

/// The tokens from `lo` up to `hi` can be printed from `start` on, and
/// behind them the place `end` is reached.
pub open spec fn ends(t: Seq<Token>, lo: int, hi: int, start: Place, end: Place) -> bool {
    printable(t, lo, hi, start) && place_after(t, lo, hi, start) == end
}

/// The place behind a token that stands at `place`.
pub open spec fn next_place(place: Place) -> Place {
    match place {
        Place::Key => Place::Value,
        _ => behind(place),
    }
}

/// A token that is a value by itself can stand at `place`.
pub open spec fn leaf_ok(token: Token, place: Place) -> bool {
    match token {
        Token::Scalar(b) => scalar_ok(b),
        Token::Rgb(_) => place is Value,
        _ => false,
    }
}

/// The place at which the first token inside a container stands.
pub open spec fn inside(token: Token) -> Place {
    if token is Array {
        Place::Element
    } else {
        Place::Key
    }
}

/// No tokens can be printed from anywhere, and leave the place as it is.
pub proof fn lemma_ends_none(t: Seq<Token>, lo: int, place: Place)
    ensures
        ends(t, lo, lo, place, place),
{
    reveal_with_fuel(printable, 2);
    reveal_with_fuel(place_after, 2);
}

/// One leaf can be printed where it can stand.
pub proof fn lemma_ends_leaf(t: Seq<Token>, i: int, place: Place)
    requires
        leaf_ok(t[i], place),
    ensures
        ends(t, i, i + 1, place, next_place(place)),
{
    reveal_with_fuel(printable, 3);
    reveal_with_fuel(place_after, 3);
}

/// A container can be printed where a value can stand, if what it holds can
/// be printed.
pub proof fn lemma_ends_container(t: Seq<Token>, i: int, e: int, place: Place, last: Place)
    requires
        !(place is Key),
        i < e,
        t[i] == Token::Array(e) || t[i] == Token::Object(e),
        t[i] is Object ==> i + 1 < e,
        t[e] == Token::End(i),
        ends(t, i + 1, e, inside(t[i]), last),
    ensures
        ends(t, i, e + 1, place, behind(place)),
{
    reveal_with_fuel(printable, 3);
    reveal_with_fuel(place_after, 3);
}

/// Printing is a matter of the tokens that are printed.
pub proof fn lemma_ends_frame(
    t: Seq<Token>,
    u: Seq<Token>,
    lo: int,
    hi: int,
    start: Place,
    end: Place,
)
    requires
        ends(t, lo, hi, start, end),
        forall|i: int| lo <= i < hi ==> t[i] == u[i],
    ensures
        ends(u, lo, hi, start, end),
    decreases hi - lo,
{
    reveal_with_fuel(printable, 2);
    reveal_with_fuel(place_after, 2);
    if lo < hi {
        match start {
            Place::Key => {
                lemma_ends_frame(t, u, lo + 1, hi, Place::Value, end);
            },
            _ => match t[lo] {
                Token::Array(e) => {
                    lemma_ends_frame(
                        t,
                        u,
                        lo + 1,
                        e,
                        Place::Element,
                        place_after(t, lo + 1, e, Place::Element),
                    );
                    lemma_ends_frame(t, u, e + 1, hi, behind(start), end);
                },
                Token::Object(e) => {
                    lemma_ends_frame(
                        t,
                        u,
                        lo + 1,
                        e,
                        Place::Key,
                        place_after(t, lo + 1, e, Place::Key),
                    );
                    lemma_ends_frame(t, u, e + 1, hi, behind(start), end);
                },
                _ => {
                    lemma_ends_frame(t, u, lo + 1, hi, behind(start), end);
                },
            },
        }
    }
}

/// What can be printed one behind the other can be printed as one.
pub proof fn lemma_ends_concat(
    t: Seq<Token>,
    lo: int,
    mid: int,
    hi: int,
    start: Place,
    between: Place,
    end: Place,
)
    requires
        ends(t, lo, mid, start, between),
        ends(t, mid, hi, between, end),
    ensures
        ends(t, lo, hi, start, end),
        lo <= mid <= hi,
    decreases mid - lo,
{
    reveal_with_fuel(printable, 2);
    reveal_with_fuel(place_after, 2);
    if lo < mid {
        match start {
            Place::Key => {
                lemma_ends_concat(t, lo + 1, mid, hi, Place::Value, between, end);
            },
            _ => match t[lo] {
                Token::Array(e) | Token::Object(e) => {
                    lemma_ends_concat(t, e + 1, mid, hi, behind(start), between, end);
                },
                _ => {
                    lemma_ends_concat(t, lo + 1, mid, hi, behind(start), between, end);
                },
            },
        }
    }
}

/// The elements of an array can be printed without the last of them, if
/// that is a scalar, which then can be written.
pub proof fn lemma_ends_drop_scalar(t: Seq<Token>, lo: int, hi: int)
    requires
        lo < hi,
        ends(t, lo, hi, Place::Element, Place::Element),
        t[hi - 1] is Scalar,
    ensures
        ends(t, lo, hi - 1, Place::Element, Place::Element),
        scalar_ok(t[hi - 1]->Scalar_0),
    decreases hi - lo,
{
    reveal_with_fuel(printable, 2);
    reveal_with_fuel(place_after, 2);
    match t[lo] {
        Token::Array(e) | Token::Object(e) => {
            crate::text::roundtrip::lemma_place_after_element(t, e + 1, hi);
            lemma_ends_drop_scalar(t, e + 1, hi);
        },
        _ => {
            if lo < hi - 1 {
                crate::text::roundtrip::lemma_place_after_element(t, lo + 1, hi);
                lemma_ends_drop_scalar(t, lo + 1, hi);
            }
        },
    }
}

/// Where skipping stops, a token starts.
pub proof fn lemma_skip_ws_lands(s: Seq<u8>, from: int, in_comment: bool)
    requires
        0 <= from,
    ensures
        skip_ws(s, from, in_comment) < s.len() ==> !spec_is_whitespace(
            s[skip_ws(s, from, in_comment)],
        ) && s[skip_ws(s, from, in_comment)] != 0x23,
    decreases s.len() - from,
{
    if from < s.len() {
        if in_comment {
            lemma_skip_ws_lands(s, from + 1, s[from] != 0x0a);
        } else if spec_is_whitespace(s[from]) {
            lemma_skip_ws_lands(s, from + 1, false);
        } else if s[from] == 0x23 {
            lemma_skip_ws_lands(s, from + 1, true);
        }
    }
}

/// No boundary byte stands before the first one that is found.
pub proof fn lemma_find_boundary_first(s: Seq<u8>, from: int)
    requires
        0 <= from,
    ensures
        forall|j: int| from <= j < find_boundary(s, from) ==> !spec_is_boundary(#[trigger] s[j]),
    decreases s.len() - from,
{
    if from < s.len() && !spec_is_boundary(s[from]) {
        lemma_find_boundary_first(s, from + 1);
    }
}

/// The scalar that is read without quotes can be written.
pub proof fn lemma_bare_scalar_ok(rest: Seq<u8>)
    requires
        rest.len() > 0,
        rest[0] == 0x3d || !spec_is_boundary(rest[0]),
    ensures
        scalar_ok(rest.subrange(0, scalar_len(rest))),
{
    let b = rest.subrange(0, scalar_len(rest));
    lemma_find_boundary_bounds(rest, 0);
    if spec_is_boundary(rest[0]) {
        assert(scalar_len(rest) == 1);
        let x = b.push(0x22);
        assert(x.len() == 2 && x[0] == 0x3d && x[1] == 0x22);
        assert(closing_quote(x, 1) == Some(1int));
        assert(quotable(b));
    } else {
        lemma_find_boundary_first(rest, 0);
        assert(find_boundary(rest, 1) == find_boundary(rest, 0));
        assert(bare_safe(b)) by {
            assert forall|i: int| 0 <= i < b.len() implies !spec_is_boundary(#[trigger] b[i]) by {
                assert(b[i] == rest[i]);
            }
        }
    }
}

/// The closing quote is found in the same way in a window of the input that
/// ends with it.
pub proof fn lemma_closing_quote_window(s: Seq<u8>, base: int, from: int, q: int)
    requires
        0 <= base <= from,
        closing_quote(s, from) == Some(q),
    ensures
        from <= q < s.len(),
        closing_quote(s.subrange(base, q + 1), from - base) == Some(q - base),
    decreases s.len() + 1 - from,
{
    lemma_closing_quote_bounds(s, from);
    let w = s.subrange(base, q + 1);
    assert(w[from - base] == s[from]);
    if s[from] == 0x5c {
        lemma_closing_quote_bounds(s, from + 2);
        lemma_closing_quote_window(s, base, from + 2, q);
    } else if s[from] != 0x22 {
        lemma_closing_quote_window(s, base, from + 1, q);
    }
}

/// The scalar that is read between quotes can be written.
pub proof fn lemma_quoted_scalar_ok(rest: Seq<u8>, q: int)
    requires
        closing_quote(rest, 1) == Some(q),
    ensures
        scalar_ok(rest.subrange(1, q)),
{
    lemma_closing_quote_window(rest, 1, 1, q);
    lemma_closing_quote_bounds(rest, 1);
    let b = rest.subrange(1, q);
    assert(b.push(0x22) == rest.subrange(1, q + 1));
}

/// The place at which a container stands that is opened inside the
/// container at `g`.
pub open spec fn stands(t: Seq<Token>, g: int) -> Place {
    if g > 0 && t[g] is Array {
        Place::Element
    } else {
        Place::Value
    }
}

/// The open containers, from the innermost at `p` outwards, and what stands
/// between them can be printed; behind the last token before `hi` the place
/// `place` is reached.
pub open spec fn pchain(t: Seq<Token>, p: int, hi: int, place: Place) -> bool
    decreases p,
{
    if p <= 0 {
        p == 0 && ends(t, 0, hi, Place::Key, place)
    } else {
        &&& p < hi
        &&& is_open(t[p])
        &&& 0 <= held(t[p]) < p
        &&& t[p] is Object ==> p + 1 < hi
        &&& ends(t, p + 1, hi, inside(t[p]), place)
        &&& pchain(t, held(t[p]), p, stands(t, held(t[p])))
    }
}

/// The chain is a matter of the tokens before `hi` alone.
pub proof fn lemma_pchain_frame(t: Seq<Token>, u: Seq<Token>, p: int, hi: int, place: Place)
    requires
        pchain(t, p, hi, place),
        forall|i: int| 0 <= i < hi ==> t[i] == u[i],
    ensures
        pchain(u, p, hi, place),
    decreases p,
{
    if p <= 0 {
        lemma_ends_frame(t, u, 0, hi, Place::Key, place);
    } else {
        lemma_ends_frame(t, u, p + 1, hi, inside(t[p]), place);
        lemma_pchain_frame(t, u, held(t[p]), p, stands(t, held(t[p])));
    }
}

/// What can be printed behind the chain belongs to the innermost container.
pub proof fn lemma_pchain_extend(
    t: Seq<Token>,
    p: int,
    mid: int,
    hi: int,
    between: Place,
    place: Place,
)
    requires
        pchain(t, p, mid, between),
        ends(t, mid, hi, between, place),
        mid < hi,
    ensures
        pchain(t, p, hi, place),
{
    if p <= 0 {
        lemma_ends_concat(t, 0, mid, hi, Place::Key, between, place);
    } else {
        lemma_ends_concat(t, p + 1, mid, hi, inside(t[p]), between, place);
    }
}

/// A leaf written behind the chain belongs to the innermost container.
pub proof fn lemma_pchain_push_leaf(t: Seq<Token>, p: int, place: Place, token: Token)
    requires
        pchain(t, p, t.len() as int, place),
        leaf_ok(token, place),
    ensures
        pchain(t.push(token), p, (t.len() + 1) as int, next_place(place)),
{
    let n = t.len() as int;
    let u = t.push(token);
    lemma_pchain_frame(t, u, p, n, place);
    lemma_ends_leaf(u, n, place);
    lemma_pchain_extend(u, p, n, n + 1, place, next_place(place));
}

/// Closing the innermost container leaves the chain of those around it.
pub proof fn lemma_pchain_close(t: Seq<Token>, p: int, place: Place, token: Token)
    requires
        pchain(t, p, t.len() as int, place),
        p > 0,
        token == Token::Array(t.len() as int) && t[p] is Array || token == Token::Object(
            t.len() as int,
        ) && t[p] is Object,
    ensures
        pchain(
            t.update(p, token).push(Token::End(p)),
            held(t[p]),
            (t.len() + 1) as int,
            behind(stands(t, held(t[p]))),
        ),
{
    let n = t.len() as int;
    let g = held(t[p]);
    let u = t.update(p, token).push(Token::End(p));
    lemma_pchain_frame(t, u, g, p, stands(t, g));
    lemma_ends_frame(t, u, p + 1, n, inside(t[p]), place);
    assert(u[n] == Token::End(p));
    assert(inside(u[p]) == inside(t[p]));
    lemma_ends_container(u, p, n, stands(t, g), place);
    lemma_pchain_extend(u, g, p, n + 1, stands(t, g), behind(stands(t, g)));
}

/// The place at which the next token stands.
pub open spec fn here(m: Machine) -> Place {
    match m.state {
        ParseState::Key | ParseState::EmptyObject => Place::Key,
        ParseState::ArrayValue => Place::Element,
        ParseState::ParseOpen | ParseState::FirstValue => stands(m.tape, m.parent),
        _ => Place::Value,
    }
}

/// What the machine has written so far can be printed. A key may be left
/// without a value where the `}` of its object is the next byte.
pub open spec fn pinv(m: Machine) -> bool {
    let t = m.tape;
    let n = t.len() as int;
    &&& pchain(t, m.parent, settled(m), here(m)) || (m.state == ParseState::Key && m.rest.len()
        > 0 && m.rest[0] == 0x7d && pchain(t, m.parent, settled(m), Place::Value))
    &&& m.state == ParseState::FirstValue ==> scalar_ok(t[n - 1]->Scalar_0)
}

/// The scalar that is read where a token starts can be written.
proof fn lemma_read_scalar_ok(m: Machine, next: ParseState)
    requires
        m.rest.len() > 0,
        m.rest[0] == 0x22 || m.rest[0] == 0x3d || !spec_is_boundary(m.rest[0]),
    ensures
        crate::text::model::scalar(m, next) matches Step::Goes(after) ==> after.tape
            == m.tape.push(after.tape.last()) && after.tape.last() is Scalar && scalar_ok(
            after.tape.last()->Scalar_0,
        ) && after.state == next && after.parent == m.parent && after.hidden == m.hidden,
{
    if m.rest[0] == 0x22 {
        match closing_quote(m.rest, 1) {
            Some(q) => {
                lemma_quoted_scalar_ok(m.rest, q);
            },
            None => {},
        }
    } else {
        lemma_bare_scalar_ok(m.rest);
    }
}

/// Every turn keeps what is written printable, and a tape that it ends on is
/// a document.
pub proof fn lemma_step_pinv(total: int, m: Machine)
    requires
        inv(m),
        pinv(m),
    ensures
        match step(total, m) {
            Step::Goes(next) => pinv(next),
            Step::Ends(Ok(tape)) => printable_document(tape),
            Step::Ends(Err(_)) => true,
        },
{
    let at = skipped(m);
    let t = at.tape;
    let n = t.len() as int;
    let p = at.parent;
    lemma_skip_ws_lands(m.rest, 0, false);
    crate::text::model::lemma_skip_ws_bounds(m.rest, 0, false);
    if m.rest.len() > 0 && m.rest[0] == 0x7d {
        assert(skip_ws(m.rest, 0, false) == 0);
        assert(at.rest == m.rest);
    }
    assert(inv(at));
    assert(pinv(at));
    crate::text::nesting::lemma_chain_bounds(t, p, settled(at));
    match step(total, m) {
        Step::Ends(Ok(tape)) => {
            if at.state == ParseState::RgbOpen {
                lemma_rgb_word_quotable();
                lemma_pchain_push_leaf(t, p, Place::Value, Token::Scalar(rgb_word()));
            }
        },
        Step::Ends(Err(_)) => {},
        Step::Goes(next) => {
            let c = at.rest[0];
            assert(c == m.rest[skip_ws(m.rest, 0, false)]);
            let u = next.tape;
            match at.state {
                ParseState::Key => {
                    if c == 0x7d {
                        let pl = if pchain(t, p, n, Place::Key) {
                            Place::Key
                        } else {
                            Place::Value
                        };
                        let g = held(t[p]);
                        lemma_pchain_close(t, p, pl, Token::Object(n));
                        let closed = t.update(p, Token::Object(n)).push(Token::End(p));
                        match at.hidden {
                            None => {
                                assert(u == closed);
                            },
                            Some(a) => if g == a {
                                lemma_pchain_close(closed, a, Place::Element, Token::Array(n + 1));
                                assert(u == closed.update(a, Token::Array(n + 1)).push(
                                    Token::End(a),
                                ));
                            },
                        }
                    } else if c == 0x7b {
                    } else {
                        lemma_read_scalar_ok(at, ParseState::KeyValueSeparator);
                        lemma_pchain_push_leaf(t, p, Place::Key, u.last());
                    }
                },
                ParseState::ObjectValue => {
                    if c == 0x7b {
                        lemma_pchain_frame(t, u, p, n, Place::Value);
                    } else if c == 0x7d {
                    } else if crate::text::model::rgb_ahead(at.rest) {
                    } else {
                        lemma_read_scalar_ok(at, ParseState::Key);
                        lemma_pchain_push_leaf(t, p, Place::Value, u.last());
                    }
                },
                ParseState::ParseOpen => {
                    let pl = stands(t, p);
                    if c == 0x7d {
                        lemma_pchain_frame(t, u, p, n - 1, pl);
                        lemma_ends_none(u, n, Place::Element);
                        lemma_ends_container(u, n - 1, n, pl, Place::Element);
                        lemma_pchain_extend(u, p, n - 1, n + 1, pl, behind(pl));
                    } else if c == 0x7b {
                        lemma_pchain_frame(t, u, p, n - 1, pl);
                        lemma_ends_none(u, n, Place::Element);
                    } else {
                        lemma_read_scalar_ok(at, ParseState::FirstValue);
                        lemma_pchain_frame(t, u, p, n - 1, pl);
                    }
                },
                ParseState::FirstValue => {
                    let pl = stands(t, p);
                    lemma_pchain_frame(t, u, p, n - 2, pl);
                    if c == 0x3d {
                        lemma_ends_leaf(u, n - 1, Place::Key);
                    } else {
                        lemma_ends_leaf(u, n - 1, Place::Element);
                    }
                },
                ParseState::ArrayValue => {
                    if c == 0x7b {
                        lemma_pchain_frame(t, u, p, n, Place::Element);
                    } else if c == 0x7d {
                        lemma_pchain_close(t, p, Place::Element, Token::Array(n));
                    } else if c == 0x3d {
                        crate::text::nesting::lemma_chain_hidden(t, p);
                        lemma_ends_drop_scalar(t, p + 1, n);
                        assert(pchain(t, p, n - 1, Place::Element));
                        assert(u.len() == n + 1);
                        assert(u[n - 1] == Token::Object(p));
                        assert(u[n] == t[n - 1]);
                        assert forall|i: int| 0 <= i < n - 1 implies t[i] == u[i] by {}
                        lemma_pchain_frame(t, u, p, n - 1, Place::Element);
                        lemma_ends_leaf(u, n, Place::Key);
                    } else {
                        lemma_read_scalar_ok(at, ParseState::ArrayValue);
                        lemma_pchain_push_leaf(t, p, Place::Element, u.last());
                    }
                },
                ParseState::RgbOpen => {
                    if c != 0x7b {
                        lemma_rgb_word_quotable();
                        lemma_pchain_push_leaf(t, p, Place::Value, Token::Scalar(rgb_word()));
                    }
                },
                ParseState::RgbClose => {
                    lemma_pchain_push_leaf(
                        t,
                        p,
                        Place::Value,
                        Token::Rgb(crate::data::Rgb { r: at.red, g: at.green, b: at.blue }),
                    );
                },
                _ => {},
            }
        },
    }
}

/// A run from a machine whose tape can be printed ends on a document, if it
/// ends on a tape at all.
pub proof fn lemma_run_pinv(total: int, m: Machine)
    requires
        inv(m),
        pinv(m),
    ensures
        run(total, m) matches Ok(tape) ==> printable_document(tape),
    decreases fuel(m),
{
    lemma_step_pinv(total, m);
    lemma_step_inv(total, m);
    match step(total, m) {
        Step::Ends(_) => {},
        Step::Goes(next) => {
            lemma_step_burns_fuel(total, m);
            lemma_run_pinv(total, next);
        },
    }
}

/// The tape of a parse can be written as a document.
pub proof fn lemma_parse_printable(data: Seq<u8>)
    ensures
        parse_model(data) matches Ok(tape) ==> printable_document(tape),
{
    let begin = start(data);
    assert(crate::text::nesting::nested(begin.tape, 0, 0));
    lemma_ends_none(begin.tape, 0, Place::Key);
    lemma_run_pinv(data.len() as int, begin);
}

/// What can be printed is a run of values.
pub proof fn lemma_printable_nested(t: Seq<Token>, lo: int, hi: int, place: Place)
    requires
        printable(t, lo, hi, place),
    ensures
        crate::text::nesting::nested(t, lo, hi),
    decreases hi - lo,
{
    reveal_with_fuel(printable, 2);
    if lo < hi {
        match place {
            Place::Key => {
                lemma_printable_nested(t, lo + 1, hi, Place::Value);
            },
            _ => match t[lo] {
                Token::Array(e) => {
                    lemma_printable_nested(t, lo + 1, e, Place::Element);
                    lemma_printable_nested(t, e + 1, hi, behind(place));
                },
                Token::Object(e) => {
                    lemma_printable_nested(t, lo + 1, e, Place::Key);
                    lemma_printable_nested(t, e + 1, hi, behind(place));
                },
                _ => {
                    lemma_printable_nested(t, lo + 1, hi, behind(place));
                },
            },
        }
    }
}

} // verus!
