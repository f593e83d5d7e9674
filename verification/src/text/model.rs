//! The parser as a state machine over plain values.
//!
//! The machine reads what is left of the input, skips whitespace and
//! comments, and then takes one transition that depends on its state and on
//! the next byte. The run of the machine from its start is what the parser
//! computes.

use vstd::prelude::*;
use crate::data::{spec_is_boundary, spec_is_whitespace, Rgb};
use crate::errors::ErrorModel;
use crate::number::parse_u64;
use crate::scalar::Scalar;

verus! {

/// A token in values that contracts can speak of: a scalar is its bytes, an
/// index is an integer.
pub enum Token {
    /// Opens an array; holds the position of its `End`
    Array(int),
    /// Opens an object; holds the position of its `End`
    Object(int),
    /// The bytes of a scalar
    Scalar(Seq<u8>),
    /// Closes a container; holds the position of the token that opened it
    End(int),
    /// An `rgb { r g b }` value
    Rgb(Rgb),
}

/// What the parser expects next.
#[derive(Debug, Clone, Copy, PartialEq, Eq, Structural)]
pub enum ParseState {
    /// A key, or the end of the enclosing object
    Key,
    /// The `=` between a key and its value, which may be missing
    KeyValueSeparator,
    /// The value of a key
    ObjectValue,
    /// An element of an array, or its end
    ArrayValue,
    /// The first thing inside a container of a yet unknown kind
    ParseOpen,
    /// What follows the first scalar of a container: a `=` makes it an object
    FirstValue,
    /// The `}` of a `{}` met where a key was expected
    EmptyObject,
    /// The `{` after the word `rgb`
    RgbOpen,
    /// The red channel
    RgbR,
    /// The green channel
    RgbG,
    /// The blue channel
    RgbB,
    /// The `}` of an rgb value
    RgbClose,
}

/// Why a parse stops without a tape. Positions count bytes from the start of
/// the input.
pub enum Fault {
    /// The input ended inside a container, a quoted scalar or an rgb value
    Eof,
    /// A `}` at this position closes nothing
    StackEmpty(int),
    /// The byte at this position should have been the `}` of a `{}`
    InvalidEmptyObject(int),
    /// The scalar at this position, with these bytes, is no colour channel
    Channel(int, Seq<u8>),
    /// The byte at this position should have closed an rgb value
    RgbClose(int),
    /// The `=` at this position, inside an array, follows no scalar that
    /// could be the first key of a hidden object
    HiddenKey(int),
    /// The `}` at this position closes an object inside a hidden object
    HiddenClose(int),
}

/// Everything the parser keeps between two transitions.
pub struct Machine {
    /// The input that is still to be read
    pub rest: Seq<u8>,
    /// What is expected next
    pub state: ParseState,
    /// The position in the tape of the innermost open container; 0 if none
    pub parent: int,
    /// The array inside which a hidden object is open
    pub hidden: Option<int>,
    /// The red channel of the rgb value being read
    pub red: u32,
    /// The green channel of the rgb value being read
    pub green: u32,
    /// The blue channel of the rgb value being read
    pub blue: u32,
    /// The tokens written so far
    pub tape: Seq<Token>,
}

/// The outcome of one transition.
pub enum Step {
    /// The machine goes on
    Goes(Machine),
    /// The parse is over
    Ends(Result<Seq<Token>, Fault>),
}

/// The bytes `r`, `g`, `b`.
pub open spec fn rgb_word() -> Seq<u8> {
    seq![0x72u8, 0x67u8, 0x62u8]
}

/// `s` from position `k` on.
pub open spec fn tail(s: Seq<u8>, k: int) -> Seq<u8> {
    s.subrange(k, s.len() as int)
}

/// The first position at or after `from` that is neither whitespace nor
/// part of a comment, or the length of `s`. A comment runs from a `#` to the
/// end of its line.
pub open spec fn skip_ws(s: Seq<u8>, from: int, in_comment: bool) -> int
    decreases s.len() - from,
{
    if from < 0 || from >= s.len() {
        s.len() as int
    } else if in_comment {
        skip_ws(s, from + 1, s[from] != 0x0a)
    } else if spec_is_whitespace(s[from]) {
        skip_ws(s, from + 1, false)
    } else if s[from] == 0x23 {
        skip_ws(s, from + 1, true)
    } else {
        from
    }
}

/// The first position at or after `from` that holds a boundary byte, or
/// the length of `s`.
pub open spec fn find_boundary(s: Seq<u8>, from: int) -> int
    decreases s.len() - from,
{
    if from < 0 || from >= s.len() {
        s.len() as int
    } else if spec_is_boundary(s[from]) {
        from
    } else {
        find_boundary(s, from + 1)
    }
}

/// The length of the unquoted scalar at the start of `s`: it runs up to the
/// first boundary byte, and is at least one byte long.
pub open spec fn scalar_len(s: Seq<u8>) -> int {
    if find_boundary(s, 0) < 1 {
        1
    } else {
        find_boundary(s, 0)
    }
}

/// The position of the quote that closes a quoted scalar, searched from
/// `from` on. A backslash takes the byte behind it along, whatever it is.
pub open spec fn closing_quote(s: Seq<u8>, from: int) -> Option<int>
    decreases s.len() + 1 - from,
{
    if from < 0 || from >= s.len() {
        None
    } else if s[from] == 0x5c {
        closing_quote(s, from + 2)
    } else if s[from] == 0x22 {
        Some(from)
    } else {
        closing_quote(s, from + 1)
    }
}

/// The index that the container at `i` holds; 0 where there is none.
pub open spec fn link(t: Seq<Token>, i: int) -> int {
    if 0 <= i < t.len() {
        match t[i] {
            Token::Array(x) => x,
            Token::Object(x) => x,
            _ => 0,
        }
    } else {
        0
    }
}

/// What is expected inside the container at `i`: elements in an array, keys
/// anywhere else.
pub open spec fn state_over(t: Seq<Token>, i: int) -> ParseState {
    if 0 <= i < t.len() && t[i] is Array {
        ParseState::ArrayValue
    } else {
        ParseState::Key
    }
}

/// `t` with `token` at `i`, if `t` has a position `i`.
pub open spec fn patch(t: Seq<Token>, i: int, token: Token) -> Seq<Token> {
    if 0 <= i < t.len() {
        t.update(i, token)
    } else {
        t
    }
}

/// The machine before the first byte is read.
pub open spec fn start(data: Seq<u8>) -> Machine {
    Machine {
        rest: data,
        state: ParseState::Key,
        parent: 0,
        hidden: None,
        red: 0,
        green: 0,
        blue: 0,
        tape: Seq::empty(),
    }
}

/// Reads an unquoted scalar and goes to `next`.
pub open spec fn bare(m: Machine, next: ParseState) -> Step {
    let e = scalar_len(m.rest);
    Step::Goes(
        Machine {
            rest: tail(m.rest, e),
            state: next,
            tape: m.tape.push(Token::Scalar(m.rest.subrange(0, e))),
            ..m
        },
    )
}

/// Reads a quoted scalar and goes to `next`; the input may end before the
/// closing quote.
pub open spec fn quoted(m: Machine, next: ParseState) -> Step {
    match closing_quote(m.rest, 1) {
        None => Step::Ends(Err(Fault::Eof)),
        Some(q) => Step::Goes(
            Machine {
                rest: tail(m.rest, q + 1),
                state: next,
                tape: m.tape.push(Token::Scalar(m.rest.subrange(1, q))),
                ..m
            },
        ),
    }
}

/// Reads a scalar, quoted or not, and goes to `next`.
pub open spec fn scalar(m: Machine, next: ParseState) -> Step {
    if m.rest[0] == 0x22 {
        quoted(m, next)
    } else {
        bare(m, next)
    }
}

/// Pushes the placeholder of a container whose kind is not known yet.
pub open spec fn open_container(m: Machine) -> Step {
    Step::Goes(
        Machine {
            rest: tail(m.rest, 1),
            state: ParseState::ParseOpen,
            tape: m.tape.push(Token::Array(0)),
            ..m
        },
    )
}

/// A `}` where a key was expected closes the innermost object. Where that
/// is a hidden object, the array around it is closed with it; no other
/// object can be closed while the array of a hidden object waits.
pub open spec fn close_object(total: int, m: Machine) -> Step {
    let grand = link(m.tape, m.parent);
    let end = m.tape.len() as int;
    if m.parent == 0 && grand == 0 {
        Step::Ends(Err(Fault::StackEmpty(total - m.rest.len())))
    } else if m.hidden matches Some(array) && grand != array {
        Step::Ends(Err(Fault::HiddenClose(total - m.rest.len())))
    } else {
        let closed = patch(m.tape, m.parent, Token::Object(end)).push(Token::End(m.parent));
        match m.hidden {
            None => Step::Goes(
                Machine {
                    rest: tail(m.rest, 1),
                    state: state_over(m.tape, grand),
                    parent: grand,
                    tape: closed,
                    ..m
                },
            ),
            Some(array) => {
                let outer = closed.push(Token::End(array));
                let above = if 0 <= array < outer.len() && outer[array] is Array {
                    link(outer, array)
                } else {
                    0
                };
                let tape = patch(outer, array, Token::Array(end + 1));
                Step::Goes(
                    Machine {
                        rest: tail(m.rest, 1),
                        state: state_over(tape, above),
                        parent: above,
                        hidden: None,
                        tape,
                        ..m
                    },
                )
            },
        }
    }
}

/// A `}` where an element was expected closes the innermost array.
pub open spec fn close_array(m: Machine) -> Step {
    let grand = link(m.tape, m.parent);
    let end = m.tape.len() as int;
    Step::Goes(
        Machine {
            rest: tail(m.rest, 1),
            state: state_over(m.tape, grand),
            parent: grand,
            tape: patch(m.tape, m.parent, Token::Array(end)).push(Token::End(m.parent)),
            ..m
        },
    )
}

/// A `=` behind an element of an array: the element, which has to be a
/// scalar, becomes the first key of an object that is slipped in before it.
pub open spec fn open_hidden_object(total: int, m: Machine) -> Step {
    let at = m.tape.len() - 1;
    if at >= 0 && m.tape[at] is Scalar {
        Step::Goes(
            Machine {
                rest: tail(m.rest, 1),
                state: ParseState::ObjectValue,
                parent: at,
                hidden: Some(m.parent),
                tape: m.tape.insert(at, Token::Object(m.parent)),
                ..m
            },
        )
    } else {
        Step::Ends(Err(Fault::HiddenKey(total - m.rest.len())))
    }
}

/// Whether `rest` starts with the word `rgb` and a boundary byte.
pub open spec fn rgb_ahead(rest: Seq<u8>) -> bool {
    rest.len() > 3 && rest[0] == 0x72 && rest[1] == 0x67 && rest[2] == 0x62 && spec_is_boundary(
        rest[3],
    )
}

/// The transition in state `Key`.
pub open spec fn step_key(total: int, m: Machine) -> Step {
    let c = m.rest[0];
    if c == 0x7d {
        close_object(total, m)
    } else if c == 0x7b {
        Step::Goes(Machine { rest: tail(m.rest, 1), state: ParseState::EmptyObject, ..m })
    } else {
        scalar(m, ParseState::KeyValueSeparator)
    }
}

/// The transition in state `ObjectValue`.
pub open spec fn step_object_value(m: Machine) -> Step {
    let c = m.rest[0];
    if c == 0x7b {
        open_container(m)
    } else if c == 0x7d {
        Step::Goes(Machine { state: ParseState::Key, ..m })
    } else if rgb_ahead(m.rest) {
        Step::Goes(Machine { rest: tail(m.rest, 3), state: ParseState::RgbOpen, ..m })
    } else {
        scalar(m, ParseState::Key)
    }
}

/// The transition in state `ParseOpen`: the placeholder is the last token.
pub open spec fn step_parse_open(m: Machine) -> Step {
    let c = m.rest[0];
    let ind = m.tape.len() - 1;
    if c == 0x7d {
        Step::Goes(
            Machine {
                rest: tail(m.rest, 1),
                state: state_over(m.tape, m.parent),
                tape: patch(m.tape, ind, Token::Array(ind + 1)).push(Token::End(ind)),
                ..m
            },
        )
    } else if c == 0x7b {
        Step::Goes(
            Machine {
                state: ParseState::ArrayValue,
                parent: ind,
                tape: patch(m.tape, ind, Token::Array(m.parent)),
                ..m
            },
        )
    } else {
        scalar(m, ParseState::FirstValue)
    }
}

/// The transition in state `FirstValue`: the placeholder is the last token
/// but one.
pub open spec fn step_first_value(m: Machine) -> Step {
    let ind = m.tape.len() - 2;
    if m.rest[0] == 0x3d {
        Step::Goes(
            Machine {
                rest: tail(m.rest, 1),
                state: ParseState::ObjectValue,
                parent: ind,
                tape: patch(m.tape, ind, Token::Object(m.parent)),
                ..m
            },
        )
    } else {
        Step::Goes(
            Machine {
                state: ParseState::ArrayValue,
                parent: ind,
                tape: patch(m.tape, ind, Token::Array(m.parent)),
                ..m
            },
        )
    }
}

/// The transition in state `ArrayValue`.
pub open spec fn step_array_value(total: int, m: Machine) -> Step {
    let c = m.rest[0];
    if c == 0x7b {
        open_container(m)
    } else if c == 0x7d {
        close_array(m)
    } else if c == 0x3d {
        open_hidden_object(total, m)
    } else {
        scalar(m, ParseState::ArrayValue)
    }
}

/// The colour channel at the start of `rest`: an unsigned number, cut to 32
/// bits.
pub open spec fn channel(rest: Seq<u8>) -> Result<u32, Seq<u8>> {
    let bytes = rest.subrange(0, scalar_len(rest));
    match parse_u64(bytes) {
        Ok(x) => Ok(x as u32),
        Err(_) => Err(bytes),
    }
}

/// The transition in the states that read a colour channel.
pub open spec fn step_channel(total: int, m: Machine) -> Step {
    match channel(m.rest) {
        Err(bytes) => Step::Ends(Err(Fault::Channel(total - m.rest.len(), bytes))),
        Ok(x) => {
            let rest = tail(m.rest, scalar_len(m.rest));
            match m.state {
                ParseState::RgbR => Step::Goes(
                    Machine { rest, state: ParseState::RgbG, red: x, ..m },
                ),
                ParseState::RgbG => Step::Goes(
                    Machine { rest, state: ParseState::RgbB, green: x, ..m },
                ),
                _ => Step::Goes(Machine { rest, state: ParseState::RgbClose, blue: x, ..m }),
            }
        },
    }
}

/// The transition that the machine takes on input that starts with a byte
/// to read.
pub open spec fn transition(total: int, m: Machine) -> Step {
    let c = m.rest[0];
    match m.state {
        ParseState::EmptyObject => if c != 0x7d {
            Step::Ends(Err(Fault::InvalidEmptyObject(total - m.rest.len())))
        } else {
            Step::Goes(Machine { rest: tail(m.rest, 1), state: ParseState::Key, ..m })
        },
        ParseState::Key => step_key(total, m),
        ParseState::KeyValueSeparator => if c == 0x3d {
            Step::Goes(Machine { rest: tail(m.rest, 1), state: ParseState::ObjectValue, ..m })
        } else {
            Step::Goes(Machine { state: ParseState::ObjectValue, ..m })
        },
        ParseState::ObjectValue => step_object_value(m),
        ParseState::ParseOpen => step_parse_open(m),
        ParseState::FirstValue => step_first_value(m),
        ParseState::ArrayValue => step_array_value(total, m),
        ParseState::RgbOpen => if c == 0x7b {
            Step::Goes(Machine { rest: tail(m.rest, 1), state: ParseState::RgbR, ..m })
        } else {
            Step::Goes(
                Machine {
                    state: ParseState::Key,
                    tape: m.tape.push(Token::Scalar(rgb_word())),
                    ..m
                },
            )
        },
        ParseState::RgbR | ParseState::RgbG | ParseState::RgbB => step_channel(total, m),
        ParseState::RgbClose => if c == 0x7d {
            Step::Goes(
                Machine {
                    rest: tail(m.rest, 1),
                    state: ParseState::Key,
                    tape: m.tape.push(
                        Token::Rgb(Rgb { r: m.red, g: m.green, b: m.blue }),
                    ),
                    ..m
                },
            )
        } else {
            Step::Ends(Err(Fault::RgbClose(total - m.rest.len())))
        },
    }
}

/// What the parse comes to when the input is used up: a tape, if no
/// container is open and a key could follow. A pending word `rgb` is a
/// scalar after all.
pub open spec fn finish(m: Machine) -> Result<Seq<Token>, Fault> {
    if m.state == ParseState::RgbOpen {
        if m.parent == 0 {
            Ok(m.tape.push(Token::Scalar(rgb_word())))
        } else {
            Err(Fault::Eof)
        }
    } else if m.parent == 0 && m.state == ParseState::Key {
        Ok(m.tape)
    } else {
        Err(Fault::Eof)
    }
}

/// `m` after whitespace and comments have been skipped.
pub open spec fn skipped(m: Machine) -> Machine {
    Machine { rest: tail(m.rest, skip_ws(m.rest, 0, false)), ..m }
}

/// One turn of the machine: skip, then end on exhausted input or take the
/// transition of the state.
pub open spec fn step(total: int, m: Machine) -> Step {
    let at = skipped(m);
    if at.rest.len() == 0 {
        Step::Ends(finish(at))
    } else {
        transition(total, at)
    }
}

/// States from which a transition may leave the input as it is step down
/// in this rank, so that no run goes on for ever.
pub open spec fn rank(state: ParseState) -> int {
    match state {
        ParseState::KeyValueSeparator => 2,
        ParseState::ObjectValue | ParseState::ParseOpen | ParseState::FirstValue
        | ParseState::RgbOpen => 1,
        _ => 0,
    }
}

/// A bound on the number of turns that are left.
pub open spec fn fuel(m: Machine) -> int {
    3 * m.rest.len() + rank(m.state)
}

/// Skipping stays inside the input.
pub proof fn lemma_skip_ws_bounds(s: Seq<u8>, from: int, in_comment: bool)
    requires
        0 <= from <= s.len(),
    ensures
        from <= skip_ws(s, from, in_comment) <= s.len(),
    decreases s.len() - from,
{
    if from < s.len() {
        if in_comment {
            lemma_skip_ws_bounds(s, from + 1, s[from] != 0x0a);
        } else if spec_is_whitespace(s[from]) {
            lemma_skip_ws_bounds(s, from + 1, false);
        } else if s[from] == 0x23 {
            lemma_skip_ws_bounds(s, from + 1, true);
        }
    }
}

/// A boundary is found inside the input, if at all.
pub proof fn lemma_find_boundary_bounds(s: Seq<u8>, from: int)
    requires
        0 <= from <= s.len(),
    ensures
        from <= find_boundary(s, from) <= s.len(),
    decreases s.len() - from,
{
    if from < s.len() && !spec_is_boundary(s[from]) {
        lemma_find_boundary_bounds(s, from + 1);
    }
}

/// A closing quote is found inside the input, if at all.
pub proof fn lemma_closing_quote_bounds(s: Seq<u8>, from: int)
    requires
        0 <= from,
    ensures
        closing_quote(s, from) matches Some(q) ==> from <= q < s.len() && s[q] == 0x22,
    decreases s.len() + 1 - from,
{
    if from < s.len() {
        if s[from] == 0x5c {
            lemma_closing_quote_bounds(s, from + 2);
        } else if s[from] != 0x22 {
            lemma_closing_quote_bounds(s, from + 1);
        }
    }
}

/// Whitespace is skipped as a run.
pub proof fn lemma_skip_ws_run(s: Seq<u8>, from: int, to: int)
    requires
        0 <= from <= to <= s.len(),
        forall|j: int| from <= j < to ==> spec_is_whitespace(#[trigger] s[j]),
    ensures
        skip_ws(s, from, false) == skip_ws(s, to, false),
    decreases to - from,
{
    if from < to {
        assert(spec_is_whitespace(s[from]));
        lemma_skip_ws_run(s, from + 1, to);
    }
}

/// A comment is skipped up to the end of its line.
pub proof fn lemma_skip_comment_run(s: Seq<u8>, from: int, to: int)
    requires
        0 <= from <= to <= s.len(),
        forall|j: int| from <= j < to ==> (#[trigger] s[j]) != 0x0a,
    ensures
        skip_ws(s, from, true) == skip_ws(s, to, true),
    decreases to - from,
{
    if from < to {
        assert(s[from] != 0x0a);
        lemma_skip_comment_run(s, from + 1, to);
    }
}

/// Bytes that are no boundary are passed over as a run.
pub proof fn lemma_find_boundary_run(s: Seq<u8>, from: int, to: int)
    requires
        0 <= from <= to <= s.len(),
        forall|j: int| from <= j < to ==> !spec_is_boundary(#[trigger] s[j]),
    ensures
        find_boundary(s, from) == find_boundary(s, to),
    decreases to - from,
{
    if from < to {
        assert(!spec_is_boundary(s[from]));
        lemma_find_boundary_run(s, from + 1, to);
    }
}

/// Bytes that are neither a backslash nor a quote are passed over as a run.
pub proof fn lemma_closing_quote_run(s: Seq<u8>, from: int, to: int)
    requires
        0 <= from <= to <= s.len(),
        forall|j: int| from <= j < to ==> (#[trigger] s[j]) != 0x5c && s[j] != 0x22,
    ensures
        closing_quote(s, from) == closing_quote(s, to),
    decreases to - from,
{
    if from < to {
        assert(s[from] != 0x5c && s[from] != 0x22);
        lemma_closing_quote_run(s, from + 1, to);
    }
}

/// Every turn that goes on uses up fuel.
pub proof fn lemma_step_burns_fuel(total: int, m: Machine)
    ensures
        step(total, m) matches Step::Goes(next) ==> 0 <= fuel(next) < fuel(m),
{
    lemma_skip_ws_bounds(m.rest, 0, false);
    let at = skipped(m);
    if at.rest.len() > 0 {
        lemma_find_boundary_bounds(at.rest, 0);
        lemma_closing_quote_bounds(at.rest, 1);
    }
}

/// What keeps the parser's index arithmetic in range: the placeholder of a
/// container of unknown kind is on the tape, and an array that expects
/// elements is too.
pub open spec fn sound(m: Machine) -> bool {
    &&& m.state == ParseState::ParseOpen ==> m.tape.len() >= 1
    &&& m.state == ParseState::FirstValue ==> m.tape.len() >= 2
    &&& m.state == ParseState::ArrayValue ==> 0 <= m.parent < m.tape.len()
}

/// The machine stays sound from turn to turn.
pub proof fn lemma_step_sound(total: int, m: Machine)
    requires
        sound(m),
    ensures
        step(total, m) matches Step::Goes(next) ==> sound(next),
{
}

/// The machine after `k` turns of the run from `m`, if the run goes on for
/// so long.
pub open spec fn after(total: int, m: Machine, k: nat) -> Option<Machine>
    decreases k,
{
    if k == 0 {
        Some(m)
    } else {
        match step(total, m) {
            Step::Goes(next) => after(total, next, (k - 1) as nat),
            Step::Ends(_) => None,
        }
    }
}

/// A run takes no more turns than it has fuel, and a sound machine stays
/// sound for as long as the run goes on.
pub proof fn lemma_after(total: int, m: Machine, k: nat)
    ensures
        after(total, m, k) matches Some(then) ==> 0 <= fuel(then) && k + fuel(then) <= fuel(m)
            && (sound(m) ==> sound(then)),
    decreases k,
{
    if k > 0 {
        lemma_step_burns_fuel(total, m);
        match step(total, m) {
            Step::Goes(next) => {
                if sound(m) {
                    lemma_step_sound(total, m);
                }
                lemma_after(total, next, (k - 1) as nat);
            },
            Step::Ends(_) => {},
        }
    }
}

/// The run of the machine from `m`: the turns are taken until one ends the
/// parse.
pub open spec fn run(total: int, m: Machine) -> Result<Seq<Token>, Fault>
    decreases fuel(m),
{
    match step(total, m) {
        Step::Ends(r) => r,
        Step::Goes(next) => {
            proof {
                lemma_step_burns_fuel(total, m);
            }
            run(total, next)
        },
    }
}

/// What parsing `data` comes to: the tape, or the reason why there is none.
pub open spec fn parse_model(data: Seq<u8>) -> Result<Seq<Token>, Fault> {
    run(data.len() as int, start(data))
}

/// The error that reports a fault. The message of a bad colour channel ends
/// in the text of the scalar, which depends on the encoding.
pub open spec fn report<'a, S: Scalar<'a>>(fault: Fault) -> ErrorModel {
    match fault {
        Fault::Eof => ErrorModel::Eof,
        Fault::StackEmpty(offset) => ErrorModel::StackEmpty { offset },
        Fault::InvalidEmptyObject(offset) => ErrorModel::InvalidEmptyObject { offset },
        Fault::Channel(offset, bytes) => ErrorModel::InvalidSyntax {
            msg: "unable to decode color channel: "@ + S::decode(bytes),
            offset,
        },
        Fault::RgbClose(offset) => ErrorModel::InvalidSyntax {
            msg: "unable to detect rgb close"@,
            offset,
        },
        Fault::HiddenKey(offset) => ErrorModel::InvalidSyntax {
            msg: "hidden object must start with a scalar key"@,
            offset,
        },
        Fault::HiddenClose(offset) => ErrorModel::InvalidSyntax {
            msg: "unable to close an object inside a hidden object"@,
            offset,
        },
    }
}

} // verus!
