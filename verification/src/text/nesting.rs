//! Well nested tapes, and the runs of the machine that write them.
//!
//! A tape is well nested when its containers are closed in the order in
//! which they were opened, each `End` pointing back at the token that points
//! at it. A run of the machine keeps the tape well nested, but for the
//! containers that are still open.

use vstd::prelude::*;
use crate::text::model::{
    closing_quote, fuel, lemma_step_burns_fuel, link, patch, rgb_word, run, scalar_len, skipped,
    step, Machine, ParseState, Step, Token,
};

verus! {

/// A scalar or an rgb value: a token that is a value by itself.
pub open spec fn is_leaf(token: Token) -> bool {
    token is Scalar || token is Rgb
}

/// A token that opens a container.
pub open spec fn is_open(token: Token) -> bool {
    token is Array || token is Object
}

/// The index that a container token holds.
pub open spec fn held(token: Token) -> int {
    match token {
        Token::Array(x) => x,
        Token::Object(x) => x,
        Token::End(x) => x,
        _ => 0,
    }
}

/// The tokens from `lo` up to `hi` are a run of values: leaves, and
/// containers that end inside the run at an `End` that points back at them
/// and whose inside is such a run again.
pub open spec fn nested(t: Seq<Token>, lo: int, hi: int) -> bool
    decreases hi - lo,
{
    if lo >= hi {
        lo == hi
    } else if is_leaf(t[lo]) {
        nested(t, lo + 1, hi)
    } else if is_open(t[lo]) {
        let e = held(t[lo]);
        lo < e < hi && t[e] == Token::End(lo) && nested(t, lo + 1, e) && nested(t, e + 1, hi)
    } else {
        false
    }
}

/// The whole tape is a run of values.
pub open spec fn well_nested(t: Seq<Token>) -> bool {
    nested(t, 0, t.len() as int)
}

/// Every container points at its `End`, and every `End` at its container.
pub open spec fn linked(t: Seq<Token>) -> bool {
    &&& forall|p: int|
        0 <= p < t.len() && is_open(#[trigger] t[p]) ==> p < held(t[p]) < t.len() && t[held(
            t[p],
        )] == Token::End(p)
    &&& forall|e: int|
        0 <= e < t.len() && (#[trigger] t[e]) is End ==> 0 <= held(t[e]) < e && is_open(
            t[held(t[e])],
        ) && held(t[held(t[e])]) == e
}

/// The position behind the value that starts at `i`: behind the `End` of a
/// container, behind the token itself otherwise.
pub open spec fn hop(t: Seq<Token>, i: int) -> int {
    if is_open(t[i]) {
        held(t[i]) + 1
    } else {
        i + 1
    }
}

/// Hopping from value to value, starting at `from`, lands exactly on `to`,
/// and never on an `End`.
pub open spec fn reaches(t: Seq<Token>, from: int, to: int) -> bool
    decreases to - from,
{
    if from >= to {
        from == to
    } else if t[from] is End || hop(t, from) <= from || hop(t, from) > to {
        false
    } else {
        reaches(t, hop(t, from), to)
    }
}

/// Being a run of values is a matter of the tokens of the run alone.
pub proof fn lemma_nested_frame(t: Seq<Token>, u: Seq<Token>, lo: int, hi: int)
    requires
        0 <= lo,
        hi <= t.len(),
        hi <= u.len(),
        nested(t, lo, hi),
        forall|i: int| lo <= i < hi ==> t[i] == u[i],
    ensures
        nested(u, lo, hi),
    decreases hi - lo,
{
    if lo < hi {
        if is_leaf(t[lo]) {
            lemma_nested_frame(t, u, lo + 1, hi);
        } else {
            let e = held(t[lo]);
            lemma_nested_frame(t, u, lo + 1, e);
            lemma_nested_frame(t, u, e + 1, hi);
        }
    }
}

/// Two runs of values, one behind the other, are one run.
pub proof fn lemma_nested_concat(t: Seq<Token>, lo: int, mid: int, hi: int)
    requires
        nested(t, lo, mid),
        nested(t, mid, hi),
    ensures
        nested(t, lo, hi),
        lo <= mid <= hi,
    decreases mid - lo,
{
    if lo < mid {
        if is_leaf(t[lo]) {
            lemma_nested_concat(t, lo + 1, mid, hi);
        } else {
            let e = held(t[lo]);
            lemma_nested_concat(t, e + 1, mid, hi);
        }
    }
}

/// A run of values that ends in a leaf is a run without it, too.
pub proof fn lemma_nested_drop_leaf(t: Seq<Token>, lo: int, hi: int)
    requires
        lo < hi,
        nested(t, lo, hi),
        is_leaf(t[hi - 1]),
    ensures
        nested(t, lo, hi - 1),
    decreases hi - lo,
{
    if is_leaf(t[lo]) {
        if lo < hi - 1 {
            lemma_nested_drop_leaf(t, lo + 1, hi);
        }
    } else {
        let e = held(t[lo]);
        lemma_nested_drop_leaf(t, e + 1, hi);
    }
}

/// In a run of values every container and every `End` has its partner
/// inside the run.
pub proof fn lemma_nested_linked(t: Seq<Token>, lo: int, hi: int)
    requires
        0 <= lo,
        nested(t, lo, hi),
    ensures
        forall|p: int|
            lo <= p < hi && is_open(#[trigger] t[p]) ==> p < held(t[p]) < hi && t[held(t[p])]
                == Token::End(p),
        forall|e: int|
            lo <= e < hi && (#[trigger] t[e]) is End ==> lo <= held(t[e]) < e && is_open(
                t[held(t[e])],
            ) && held(t[held(t[e])]) == e,
    decreases hi - lo,
{
    if lo < hi {
        if is_leaf(t[lo]) {
            lemma_nested_linked(t, lo + 1, hi);
        } else {
            let e = held(t[lo]);
            lemma_nested_linked(t, lo + 1, e);
            lemma_nested_linked(t, e + 1, hi);
        }
    }
}

/// A well nested tape is linked.
pub proof fn lemma_well_nested_linked(t: Seq<Token>)
    requires
        well_nested(t),
    ensures
        linked(t),
{
    lemma_nested_linked(t, 0, t.len() as int);
}

/// No two containers overlap: of any two, one lies inside the other or
/// behind it.
pub open spec fn laminar(t: Seq<Token>) -> bool {
    forall|p: int, q: int|
        0 <= p < q < t.len() && is_open(#[trigger] t[p]) && is_open(#[trigger] t[q]) ==> held(
            t[q],
        ) < held(t[p]) || held(t[p]) < q
}

/// In a run of values no two containers overlap.
pub proof fn lemma_nested_laminar(t: Seq<Token>, lo: int, hi: int)
    requires
        0 <= lo,
        nested(t, lo, hi),
    ensures
        forall|p: int, q: int|
            lo <= p < q < hi && is_open(#[trigger] t[p]) && is_open(#[trigger] t[q]) ==> held(
                t[q],
            ) < held(t[p]) || held(t[p]) < q,
    decreases hi - lo,
{
    if lo < hi {
        if is_leaf(t[lo]) {
            lemma_nested_laminar(t, lo + 1, hi);
        } else {
            let e = held(t[lo]);
            lemma_nested_laminar(t, lo + 1, e);
            lemma_nested_laminar(t, e + 1, hi);
            lemma_nested_linked(t, lo + 1, e);
            lemma_nested_linked(t, e + 1, hi);
            assert forall|p: int, q: int|
                lo <= p < q < hi && is_open(#[trigger] t[p]) && is_open(
                    #[trigger] t[q],
                ) implies held(t[q]) < held(t[p]) || held(t[p]) < q by {
                if p == lo {
                    if q < e {
                        assert(lo + 1 <= q < e);
                    }
                } else if p < e {
                    assert(lo + 1 <= p < e);
                }
            }
        }
    }
}

/// The containers of a well nested tape do not overlap.
pub proof fn lemma_well_nested_laminar(t: Seq<Token>)
    requires
        well_nested(t),
    ensures
        laminar(t),
{
    lemma_nested_laminar(t, 0, t.len() as int);
}

/// Hopping over a run of values lands exactly on its end.
pub proof fn lemma_nested_reaches(t: Seq<Token>, lo: int, hi: int)
    requires
        nested(t, lo, hi),
    ensures
        reaches(t, lo, hi),
    decreases hi - lo,
{
    if lo < hi {
        if is_leaf(t[lo]) {
            lemma_nested_reaches(t, lo + 1, hi);
        } else {
            lemma_nested_reaches(t, held(t[lo]) + 1, hi);
        }
    }
}

/// The containers that are still open, from the innermost at `p` outwards:
/// each holds the position of the one around it, and between two of them,
/// as behind the innermost up to `hi`, the tape is a run of values. With no
/// container open, `p` is 0 and the tape up to `hi` is a run of values.
pub open spec fn chain(t: Seq<Token>, p: int, hi: int) -> bool
    decreases p,
{
    if p <= 0 {
        p == 0 && nested(t, 0, hi)
    } else {
        &&& p < hi
        &&& is_open(t[p])
        &&& 0 <= held(t[p]) < p
        &&& nested(t, p + 1, hi)
        &&& chain(t, held(t[p]), p)
    }
}

/// The open containers lie before the end of what they hold.
pub proof fn lemma_chain_bounds(t: Seq<Token>, p: int, hi: int)
    requires
        chain(t, p, hi),
    ensures
        0 <= p <= hi,
        p > 0 ==> p < hi,
{
    if p <= 0 {
        lemma_nested_concat(t, 0, hi, hi);
    }
}

/// The chain is a matter of the tokens before `hi` alone.
pub proof fn lemma_chain_frame(t: Seq<Token>, u: Seq<Token>, p: int, hi: int)
    requires
        hi <= t.len(),
        hi <= u.len(),
        chain(t, p, hi),
        forall|i: int| 0 <= i < hi ==> t[i] == u[i],
    ensures
        chain(u, p, hi),
    decreases p,
{
    if p <= 0 {
        lemma_nested_frame(t, u, 0, hi);
    } else {
        lemma_nested_frame(t, u, p + 1, hi);
        lemma_chain_frame(t, u, held(t[p]), p);
    }
}

/// A run of values behind the chain belongs to the innermost container.
pub proof fn lemma_chain_extend(t: Seq<Token>, p: int, mid: int, hi: int)
    requires
        chain(t, p, mid),
        nested(t, mid, hi),
    ensures
        chain(t, p, hi),
{
    if p <= 0 {
        lemma_nested_concat(t, 0, mid, hi);
    } else {
        lemma_nested_concat(t, p + 1, mid, hi);
    }
}

/// The chain holds without a leaf at its end, too.
pub proof fn lemma_chain_drop_leaf(t: Seq<Token>, p: int, hi: int)
    requires
        chain(t, p, hi),
        0 < hi,
        is_leaf(t[hi - 1]),
    ensures
        chain(t, p, hi - 1),
{
    if p <= 0 {
        lemma_nested_drop_leaf(t, 0, hi);
    } else {
        lemma_nested_drop_leaf(t, p + 1, hi);
    }
}

/// A value written behind the chain belongs to the innermost container.
pub proof fn lemma_chain_push_leaf(t: Seq<Token>, p: int, token: Token)
    requires
        chain(t, p, t.len() as int),
        is_leaf(token),
    ensures
        chain(t.push(token), p, (t.len() + 1) as int),
{
    let n = t.len() as int;
    let u = t.push(token);
    lemma_chain_frame(t, u, p, n);
    assert(nested(u, n + 1, n + 1));
    assert(nested(u, n, n + 1));
    lemma_chain_extend(u, p, n, n + 1);
}

/// Closing the innermost container leaves the chain of those around it.
pub proof fn lemma_chain_close(t: Seq<Token>, p: int, token: Token)
    requires
        chain(t, p, t.len() as int),
        p > 0,
        is_open(token),
        held(token) == t.len(),
    ensures
        chain(t.update(p, token).push(Token::End(p)), held(t[p]), (t.len() + 1) as int),
{
    let n = t.len() as int;
    let g = held(t[p]);
    let u = t.update(p, token).push(Token::End(p));
    lemma_chain_frame(t, u, g, p);
    lemma_nested_frame(t, u, p + 1, n);
    assert(nested(u, n + 1, n + 1));
    assert(u[n] == Token::End(p));
    assert(nested(u, p, n + 1));
    lemma_chain_extend(u, g, p, n + 1);
}

/// The kind of a container is settled once its first token is read: the
/// placeholder at `k` becomes the innermost open container.
pub proof fn lemma_chain_classify(t: Seq<Token>, p: int, k: int, hi: int, token: Token)
    requires
        chain(t, p, k),
        1 <= k < hi <= t.len(),
        nested(t, k + 1, hi),
        is_open(token),
        held(token) == p,
    ensures
        chain(t.update(k, token), k, hi),
{
    let u = t.update(k, token);
    lemma_chain_bounds(t, p, k);
    lemma_chain_frame(t, u, p, k);
    lemma_nested_frame(t, u, k + 1, hi);
}

/// A container that is closed at once is a value like any other.
pub proof fn lemma_chain_empty_array(t: Seq<Token>, p: int)
    requires
        t.len() >= 1,
        chain(t, p, t.len() - 1),
    ensures
        chain(
            t.update(t.len() - 1, Token::Array(t.len() as int)).push(Token::End(t.len() - 1)),
            p,
            (t.len() + 1) as int,
        ),
{
    let n = t.len() as int;
    let k = n - 1;
    let u = t.update(k, Token::Array(n)).push(Token::End(k));
    lemma_chain_frame(t, u, p, k);
    assert(nested(u, n + 1, n + 1));
    assert(nested(u, k + 1, n));
    assert(u[n] == Token::End(k));
    assert(nested(u, k, n + 1));
    lemma_chain_extend(u, p, k, n + 1);
}

/// An object slipped in before the last element of an array becomes the
/// innermost open container, with that element as its first key.
pub proof fn lemma_chain_hidden(t: Seq<Token>, p: int)
    requires
        chain(t, p, t.len() as int),
        p > 0,
        t.len() >= 1,
        is_leaf(t[t.len() - 1]),
    ensures
        p < t.len() - 1,
        chain(t.insert(t.len() - 1, Token::Object(p)), t.len() - 1, (t.len() + 1) as int),
{
    let n = t.len() as int;
    let u = t.insert(n - 1, Token::Object(p));
    lemma_chain_drop_leaf(t, p, n);
    lemma_chain_bounds(t, p, n - 1);
    assert(u.len() == n + 1);
    assert forall|i: int| 0 <= i < n - 1 implies t[i] == u[i] by {}
    lemma_chain_frame(t, u, p, n - 1);
    assert(u[n - 1] == Token::Object(p));
    assert(u[n] == t[n - 1]);
    assert(nested(u, n + 1, n + 1));
    assert(nested(u, n, n + 1));
}

/// The number of tokens that have found their place: all of them, but for
/// the placeholder of a container whose kind is not settled yet and the
/// scalar that may follow it.
pub open spec fn settled(m: Machine) -> int {
    match m.state {
        ParseState::ParseOpen => m.tape.len() - 1,
        ParseState::FirstValue => m.tape.len() - 2,
        _ => m.tape.len() as int,
    }
}

/// The states in which the innermost open container is an object, or there
/// is none.
pub open spec fn among_keys(state: ParseState) -> bool {
    state != ParseState::ArrayValue && state != ParseState::ParseOpen && state
        != ParseState::FirstValue
}

/// What holds of the machine between any two turns of a run.
pub open spec fn inv(m: Machine) -> bool {
    let t = m.tape;
    let n = t.len() as int;
    &&& chain(t, m.parent, settled(m))
    &&& n > 0 ==> t[0] is Scalar
    &&& n == 0 ==> (m.state == ParseState::Key || m.state == ParseState::EmptyObject) && m.parent
        == 0
    &&& m.state == ParseState::ParseOpen ==> n >= 2 && t[n - 1] == Token::Array(0)
    &&& m.state == ParseState::FirstValue ==> n >= 3 && t[n - 2] == Token::Array(0) && t[n
        - 1] is Scalar
    &&& m.state == ParseState::ArrayValue ==> m.parent > 0 && t[m.parent] is Array
    &&& among_keys(m.state) ==> m.parent == 0 || t[m.parent] is Object
    &&& m.hidden matches Some(a) ==> 0 < a < settled(m) && t[a] is Array
}

/// A scalar read where a value may stand keeps the machine in order.
proof fn lemma_scalar_inv(m: Machine, next: ParseState)
    requires
        inv(m),
        m.rest.len() > 0,
        m.state != ParseState::ParseOpen,
        m.state != ParseState::FirstValue,
        next != ParseState::ParseOpen,
        next != ParseState::FirstValue,
        next == ParseState::ArrayValue ==> m.state == ParseState::ArrayValue,
        among_keys(next) ==> among_keys(m.state),
    ensures
        crate::text::model::scalar(m, next) matches Step::Goes(after) ==> inv(after),
{
    let t = m.tape;
    if m.rest[0] == 0x22 {
        match closing_quote(m.rest, 1) {
            Some(q) => {
                lemma_chain_push_leaf(t, m.parent, Token::Scalar(m.rest.subrange(1, q)));
            },
            None => {},
        }
    } else {
        lemma_chain_push_leaf(
            t,
            m.parent,
            Token::Scalar(m.rest.subrange(0, scalar_len(m.rest))),
        );
    }
}

/// Every turn keeps the machine in order, and a tape that it ends on is well
/// nested.
pub proof fn lemma_step_inv(total: int, m: Machine)
    requires
        inv(m),
    ensures
        match step(total, m) {
            Step::Goes(next) => inv(next),
            Step::Ends(Ok(tape)) => well_nested(tape),
            Step::Ends(Err(_)) => true,
        },
{
    let at = skipped(m);
    let t = at.tape;
    let n = t.len() as int;
    let p = at.parent;
    assert(inv(at));
    if at.rest.len() == 0 {
        if at.state == ParseState::RgbOpen && p == 0 {
            lemma_chain_push_leaf(t, p, Token::Scalar(rgb_word()));
        }
    } else {
        let c = at.rest[0];
        match at.state {
            ParseState::Key => {
                if c == 0x7d {
                    if !(p == 0 && link(t, p) == 0) {
                        lemma_chain_bounds(t, p, n);
                        assert(p > 0);
                        let g = held(t[p]);
                        assert(chain(t, g, p));
                        lemma_chain_close(t, p, Token::Object(n));
                        let closed = t.update(p, Token::Object(n)).push(Token::End(p));
                        match at.hidden {
                            None => {},
                            Some(a) => if g == a {
                                let above = held(t[a]);
                                assert(chain(t, above, a));
                                lemma_chain_close(closed, a, Token::Array(n + 1));
                                let outer = closed.push(Token::End(a));
                                assert(patch(outer, a, Token::Array(n + 1)) =~= closed.update(
                                    a,
                                    Token::Array(n + 1),
                                ).push(Token::End(a)));
                            },
                        }
                    }
                } else if c == 0x7b {
                } else {
                    lemma_scalar_inv(at, ParseState::KeyValueSeparator);
                }
            },
            ParseState::ObjectValue => {
                if c == 0x7b {
                    lemma_chain_frame(t, t.push(Token::Array(0)), p, n);
                } else if c == 0x7d {
                } else {
                    lemma_scalar_inv(at, ParseState::Key);
                }
            },
            ParseState::ParseOpen => {
                if c == 0x7d {
                    lemma_chain_empty_array(t, p);
                } else if c == 0x7b {
                    lemma_chain_classify(t, p, n - 1, n, Token::Array(p));
                } else {
                    if c == 0x22 {
                        match closing_quote(at.rest, 1) {
                            Some(q) => {
                                lemma_chain_frame(
                                    t,
                                    t.push(Token::Scalar(at.rest.subrange(1, q))),
                                    p,
                                    n - 1,
                                );
                            },
                            None => {},
                        }
                    } else {
                        lemma_chain_frame(
                            t,
                            t.push(Token::Scalar(at.rest.subrange(0, scalar_len(at.rest)))),
                            p,
                            n - 1,
                        );
                    }
                }
            },
            ParseState::FirstValue => {
                assert(nested(t, n, n));
                assert(nested(t, n - 1, n));
                if c == 0x3d {
                    lemma_chain_classify(t, p, n - 2, n, Token::Object(p));
                } else {
                    lemma_chain_classify(t, p, n - 2, n, Token::Array(p));
                }
            },
            ParseState::ArrayValue => {
                if c == 0x7b {
                    lemma_chain_frame(t, t.push(Token::Array(0)), p, n);
                } else if c == 0x7d {
                    let g = held(t[p]);
                    assert(chain(t, g, p));
                    lemma_chain_close(t, p, Token::Array(n));
                } else if c == 0x3d {
                    if t[n - 1] is Scalar {
                        lemma_chain_hidden(t, p);
                    }
                } else {
                    lemma_scalar_inv(at, ParseState::ArrayValue);
                }
            },
            ParseState::RgbOpen => {
                if c != 0x7b {
                    lemma_chain_push_leaf(t, p, Token::Scalar(rgb_word()));
                }
            },
            ParseState::RgbClose => {
                if c == 0x7d {
                    lemma_chain_push_leaf(
                        t,
                        p,
                        Token::Rgb(crate::data::Rgb { r: at.red, g: at.green, b: at.blue }),
                    );
                }
            },
            _ => {},
        }
    }
}

/// A run from a machine in order ends on a well nested tape, if it ends on
/// a tape at all.
pub proof fn lemma_run_inv(total: int, m: Machine)
    requires
        inv(m),
    ensures
        run(total, m) matches Ok(tape) ==> well_nested(tape),
    decreases fuel(m),
{
    lemma_step_inv(total, m);
    match step(total, m) {
        Step::Ends(_) => {},
        Step::Goes(next) => {
            lemma_step_burns_fuel(total, m);
            lemma_run_inv(total, next);
        },
    }
}

} // verus!
