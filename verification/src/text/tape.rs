//! Tokens, the tape that holds them, and the parser that writes it.

use vstd::prelude::*;
use vstd::slice::slice_subrange;
use vstd::string::StringExecFns;
use crate::data::{is_boundary, is_whitespace, spec_is_whitespace, Rgb};
use crate::encoding::{Encoding, Utf8, Windows1252};
use crate::errors::{Error, ErrorKind, ErrorModel};
use crate::number::{lemma_find_byte, position};
use crate::scalar::{Scalar, Scalar1252, ScalarUtf8};
use crate::text::laws::{lemma_parse_laminar, lemma_parse_linked, lemma_parse_well_nested};
use crate::text::model::{
    closing_quote, fuel, lemma_closing_quote_bounds, lemma_closing_quote_run,
    lemma_find_boundary_bounds, lemma_find_boundary_run, lemma_skip_comment_run,
    lemma_skip_ws_bounds, lemma_skip_ws_run, lemma_step_burns_fuel, lemma_step_sound, link,
    parse_model, report, rgb_word, run, scalar_len, skip_ws, sound, start, state_over, step, tail,
    Fault, Machine, ParseState, Step, Token,
};
use crate::text::nesting::{laminar, linked, well_nested};
use crate::util::{contains_zero_byte, le_u64, lemma_has_byte, lemma_pack8_lanes, repeat_byte};

verus! {

/// Represents a valid text value
#[derive(Debug, PartialEq)]
pub enum TextToken<S> {
    /// Index of the `TextToken::End` that signifies this array's termination
    Array(usize),
    /// Index of the `TextToken::End` that signifies this object's termination
    Object(usize),
    /// Extracted scalar value
    Scalar(S),
    /// Index of the start of this object
    End(usize),
    /// Represents a text encoded rgb value
    Rgb(Box<Rgb>),
}

impl<'a, S: Scalar<'a>> TextToken<S> {
    /// The token in plain values.
    pub open spec fn model(&self) -> Token {
        match *self {
            TextToken::Array(x) => Token::Array(x as int),
            TextToken::Object(x) => Token::Object(x as int),
            TextToken::Scalar(s) => Token::Scalar(s.bytes()),
            TextToken::End(x) => Token::End(x as int),
            TextToken::Rgb(c) => Token::Rgb(*c),
        }
    }
}

/// A run of tokens in plain values.
pub open spec fn tape_model<'a, S: Scalar<'a>>(tokens: Seq<TextToken<S>>) -> Seq<Token> {
    Seq::new(tokens.len(), |i: int| tokens[i].model())
}

/// Houses the tape of tokens that is extracted from plaintext data
#[derive(Debug)]
pub struct TextTape<S> {
    token_tape: Vec<TextToken<S>>,
}

impl<'a, S: Scalar<'a>> View for TextTape<S> {
    type V = Seq<Token>;

    closed spec fn view(&self) -> Seq<Token> {
        tape_model(self.token_tape@)
    }
}

impl<'a, S> TextTape<S> where S: Scalar<'a> {
    /// Creates a new text tape
    pub fn new() -> (tape: Self)
        ensures
            tape@ == Seq::<Token>::empty(),
    {
        let tape = TextTape { token_tape: Vec::new() };
        assert(tape@ =~= Seq::<Token>::empty());
        tape
    }

    /// Return the parsed tokens
    pub fn tokens(&self) -> (tokens: &[TextToken<S>])
        ensures
            tape_model(tokens@) == self@,
    {
        self.token_tape.as_slice()
    }
}

impl<'a, S: Scalar<'a>> Default for TextTape<S> {
    fn default() -> (tape: Self)
        ensures
            tape@ == Seq::<Token>::empty(),
    {
        TextTape::new()
    }
}

/// Creates a parser that a writes to a text tape
#[derive(Debug)]
pub struct TextTapeParser<F> {
    encoding: F,
}

impl<F> TextTapeParser<F> {
    /// The encoding that the scalars of the tape are made in.
    pub closed spec fn encoding(&self) -> F {
        self.encoding
    }
}

impl<F: Default> Default for TextTapeParser<F> {
    /// A parser with the default of its encoding.
    fn default() -> (parser: Self)
        ensures
            call_ensures(F::default, (), parser.encoding()),
    {
        TextTapeParser { encoding: F::default() }
    }
}

impl<'a, F> TextTapeParser<F> where F: Encoding<'a> {
    /// Create a text parser with a given encoding
    pub fn with_encoding(flavor: F) -> (parser: Self)
        ensures
            parser.encoding() == flavor,
    {
        TextTapeParser { encoding: flavor }
    }

    /// Parse the text format and return the data tape: the tokens that the
    /// run of the machine over `data` comes to, or the error that reports why
    /// it stopped. On the tape every container is linked with its `End`, and
    /// no two containers overlap.
    pub fn parse_slice(self, data: &'a [u8]) -> (r: Result<TextTape<F::ReturnScalar>, Error>)
        ensures
            match r {
                Ok(tape) => parse_model(data@) == Ok::<Seq<Token>, Fault>(tape@),
                Err(e) => parse_model(data@) matches Err(f) && e@ == report::<F::ReturnScalar>(
                    f,
                ),
            },
            r matches Ok(tape) ==> well_nested(tape@) && linked(tape@) && laminar(tape@),
    {
        let toks = Vec::new();
        let mut res = TextTape { token_tape: toks };
        match self.parse_slice_into_tape(data, &mut res) {
            Ok(()) => Ok(res),
            Err(e) => Err(e),
        }
    }

    /// Parse the text format into the given tape. What the tape held before
    /// is cleared; its storage is used again.
    pub fn parse_slice_into_tape(
        self,
        data: &'a [u8],
        tape: &mut TextTape<F::ReturnScalar>,
    ) -> (r: Result<(), Error>)
        ensures
            match r {
                Ok(()) => parse_model(data@) == Ok::<Seq<Token>, Fault>(final(tape)@),
                Err(e) => parse_model(data@) matches Err(f) && e@ == report::<F::ReturnScalar>(
                    f,
                ),
            },
            r is Ok ==> well_nested(final(tape)@) && linked(final(tape)@) && laminar(
                final(tape)@,
            ),
    {
        let mut token_tape = Vec::new();
        core::mem::swap(&mut tape.token_tape, &mut token_tape);
        token_tape.clear();
        token_tape.reserve(data.len() / 100 * 15);
        let mut state = ParserState {
            data,
            length: data.len(),
            token_tape,
            flavor: self.encoding,
        };
        let r = state.parse();
        tape.token_tape = state.token_tape;
        r
    }
}

/// High level structure for parsing plain text data
pub struct TextParser;

impl TextParser {
    /// Creates a parser tailored to the given encoding
    pub fn from_encoding<'a, E>(encoding: E) -> (parser: TextTapeParser<E>) where E: Encoding<'a>
        ensures
            parser.encoding() == encoding,
    {
        TextTapeParser::with_encoding(encoding)
    }

    /// Creates a parser for ingesting utf-8 encoded data
    pub fn utf8_parser() -> (parser: TextTapeParser<Utf8>)
        ensures
            parser.encoding() == Utf8,
    {
        TextTapeParser::with_encoding(Utf8::new())
    }

    /// Parses utf-8 encoded data into a tape
    pub fn from_utf8<'a>(data: &'a [u8]) -> (r: Result<TextTape<ScalarUtf8<'a>>, Error>)
        ensures
            match r {
                Ok(tape) => parse_model(data@) == Ok::<Seq<Token>, Fault>(tape@),
                Err(e) => parse_model(data@) matches Err(f) && e@ == report::<ScalarUtf8<'a>>(f),
            },
            r matches Ok(tape) ==> well_nested(tape@) && linked(tape@) && laminar(tape@),
    {
        Self::utf8_parser().parse_slice(data)
    }

    /// Creates a parser for ingesting windows-1252 encoded data
    pub fn windows1252_parser() -> (parser: TextTapeParser<Windows1252>)
        ensures
            parser.encoding() == Windows1252,
    {
        TextTapeParser::with_encoding(Windows1252::new())
    }

    /// Parses windows-1252 encoded data into a tape
    pub fn from_windows1252<'a>(data: &'a [u8]) -> (r: Result<TextTape<Scalar1252<'a>>, Error>)
        ensures
            match r {
                Ok(tape) => parse_model(data@) == Ok::<Seq<Token>, Fault>(tape@),
                Err(e) => parse_model(data@) matches Err(f) && e@ == report::<Scalar1252<'a>>(f),
            },
            r matches Ok(tape) ==> well_nested(tape@) && linked(tape@) && laminar(tape@),
    {
        Self::windows1252_parser().parse_slice(data)
    }
}

/// Looks for the first byte that `confirm` accepts.
pub fn forward_search<F: Fn(u8) -> bool>(d: &[u8], confirm: F) -> (r: Option<usize>)
    requires
        forall|j: int| 0 <= j < d@.len() ==> call_requires(confirm, (#[trigger] d@[j],)),
    ensures
        match r {
            Some(i) => i < d@.len() && call_ensures(confirm, (d@[i as int],), true) && forall|
                j: int,
            |
                0 <= j < i ==> call_ensures(confirm, (#[trigger] d@[j],), false),
            None => forall|j: int|
                0 <= j < d@.len() ==> call_ensures(confirm, (#[trigger] d@[j],), false),
        },
{
    let mut i: usize = 0;
    while i < d.len()
        invariant
            i <= d@.len(),
            forall|j: int| 0 <= j < d@.len() ==> call_requires(confirm, (#[trigger] d@[j],)),
            forall|j: int| 0 <= j < i ==> call_ensures(confirm, (#[trigger] d@[j],), false),
        decreases d@.len() - i,
    {
        if confirm(d[i]) {
            return Some(i);
        }
        i += 1;
    }
    None
}

/// Whether `b` is anything but whitespace.
fn is_not_whitespace(b: u8) -> (r: bool)
    ensures
        r == !spec_is_whitespace(b),
{
    !is_whitespace(b)
}

/// The parser at work: the input and its length, the encoding of the
/// scalars, and the tape that is written.
struct ParserState<'a, F, S> {
    data: &'a [u8],
    length: usize,
    flavor: F,
    token_tape: Vec<TextToken<S>>,
}

impl<'a, F, S> ParserState<'a, F, S> where F: Encoding<'a, ReturnScalar = S>, S: Scalar<'a> {
    /// The position in the input at which `data`, what is left of it, starts.
    fn offset(&self, data: &[u8]) -> (r: usize)
        requires
            data@.len() <= self.length,
        ensures
            r == self.length - data@.len(),
    {
        self.length - data.len()
    }

    /// Skips whitespace that may terminate the file
    fn skip_ws_t(&self, data: &'a [u8]) -> (rest: &'a [u8])
        ensures
            rest@ == tail(data@, skip_ws(data@, 0, false)),
    {
        let n = data.len();
        let mut at: usize = 0;
        loop
            invariant
                at <= n,
                n == data@.len(),
                skip_ws(data@, 0, false) == skip_ws(data@, at as int, false),
            decreases n - at,
        {
            let rest = slice_subrange(data, at, n);
            let found = forward_search(rest, is_not_whitespace);
            let ind = match found {
                Some(i) => i,
                None => rest.len(),
            };
            let begin = at + ind;
            proof {
                assert forall|j: int| at <= j < begin implies spec_is_whitespace(
                    #[trigger] data@[j],
                ) by {
                    assert(data@[j] == rest@[j - at]);
                }
                lemma_skip_ws_run(data@, at as int, begin as int);
                if begin < n {
                    assert(data@[begin as int] == rest@[ind as int]);
                }
            }
            if begin < n && data[begin] == 0x23 {
                let comment = slice_subrange(data, begin, n);
                let idx = position(comment, 0x0a);
                proof {
                    lemma_find_byte(comment@, 0x0a, 0);
                    assert forall|j: int| begin + 1 <= j < begin + idx implies (
                    #[trigger] data@[j]) != 0x0a by {
                        assert(data@[j] == comment@[j - begin]);
                    }
                    assert(comment@[0] == data@[begin as int]);
                    assert(idx >= 1);
                    lemma_skip_comment_run(data@, begin + 1, begin + idx);
                }
                if idx < comment.len() {
                    assert(data@[begin + idx] == comment@[idx as int]);
                    at = begin + idx;
                } else {
                    return slice_subrange(data, n, n);
                }
            } else {
                return slice_subrange(data, begin, n);
            }
        }
    }

    /// Splits `d` behind the unquoted scalar at its start.
    fn split_at_scalar(&self, d: &'a [u8]) -> (r: (F::ReturnScalar, &'a [u8]))
        requires
            d@.len() > 0,
        ensures
            r.0.bytes() == d@.subrange(0, scalar_len(d@)),
            r.1@ == tail(d@, scalar_len(d@)),
            1 <= scalar_len(d@) <= d@.len(),
    {
        let nind = forward_search(d, is_boundary);
        let mut ind = match nind {
            Some(i) => i,
            None => d.len(),
        };
        proof {
            lemma_find_boundary_run(d@, 0, ind as int);
        }
        // A scalar is never empty, so that `==bar` is read as `=`, `=`, `bar`
        if ind < 1 {
            ind = 1;
        }
        let scalar = slice_subrange(d, 0, ind);
        let rest = slice_subrange(d, ind, d.len());
        (self.flavor.scalar(scalar), rest)
    }

    /// Looks for the closing quote byte by byte, past every escaped byte.
    fn parse_quote_scalar_fallback(&self, d: &'a [u8]) -> (r: Result<
        (F::ReturnScalar, &'a [u8]),
        Error,
    >)
        ensures
            match closing_quote(d@, 1) {
                Some(q) => r matches Ok(found) && found.0.bytes() == d@.subrange(1, q)
                    && found.1@ == tail(d@, q + 1),
                None => r matches Err(e) && e@ == ErrorModel::Eof,
            },
    {
        let mut pos: usize = 1;
        while pos < d.len()
            invariant
                1 <= pos,
                closing_quote(d@, 1) == closing_quote(d@, pos as int),
            decreases d@.len() + 1 - pos,
        {
            if d[pos] == 0x5c {
                if d.len() - pos < 2 {
                    assert(closing_quote(d@, pos + 2) is None);
                    return Err(Error::eof());
                }
                pos += 2;
            } else if d[pos] == 0x22 {
                let scalar = self.flavor.scalar(slice_subrange(d, 1, pos));
                return Ok((scalar, slice_subrange(d, pos + 1, d.len())));
            } else {
                pos += 1;
            }
        }
        Err(Error::eof())
    }

    /// Looks for the closing quote eight bytes at a time, as long as no
    /// backslash is met.
    fn _parse_quote_scalar(&self, d: &'a [u8]) -> (r: Result<(F::ReturnScalar, &'a [u8]), Error>)
        requires
            d@.len() >= 1,
        ensures
            match closing_quote(d@, 1) {
                Some(q) => r matches Ok(found) && found.0.bytes() == d@.subrange(1, q)
                    && found.1@ == tail(d@, q + 1),
                None => r matches Err(e) && e@ == ErrorModel::Eof,
            },
    {
        let n = d.len();
        let mut offset: usize = 1;
        while n - offset >= 8
            invariant
                1 <= offset <= n,
                n == d@.len(),
                closing_quote(d@, 1) == closing_quote(d@, offset as int),
            decreases n - offset,
        {
            let chunk = slice_subrange(d, offset, offset + 8);
            let acc = le_u64(chunk);
            proof {
                lemma_has_byte(acc, 0x5c);
                lemma_has_byte(acc, 0x22);
                lemma_pack8_lanes(
                    chunk@[0],
                    chunk@[1],
                    chunk@[2],
                    chunk@[3],
                    chunk@[4],
                    chunk@[5],
                    chunk@[6],
                    chunk@[7],
                );
            }
            if contains_zero_byte(acc ^ repeat_byte(0x5c)) {
                return self.parse_quote_scalar_fallback(d);
            } else if contains_zero_byte(acc ^ repeat_byte(0x22)) {
                let k = position(chunk, 0x22);
                proof {
                    lemma_find_byte(chunk@, 0x22, 0);
                    assert(k < 8) by {
                        if k >= 8 {
                            assert(chunk@[0] != 0x22 && chunk@[1] != 0x22 && chunk@[2] != 0x22
                                && chunk@[3] != 0x22 && chunk@[4] != 0x22 && chunk@[5] != 0x22
                                && chunk@[6] != 0x22 && chunk@[7] != 0x22);
                        }
                    }
                    assert forall|j: int| offset <= j < offset + k implies (#[trigger] d@[j])
                        != 0x5c && d@[j] != 0x22 by {
                        assert(d@[j] == chunk@[j - offset]);
                    }
                    lemma_closing_quote_run(d@, offset as int, offset + k);
                    assert(d@[offset + k] == chunk@[k as int]);
                }
                let end = offset + k;
                let scalar = self.flavor.scalar(slice_subrange(d, 1, end));
                return Ok((scalar, slice_subrange(d, end + 1, n)));
            }
            proof {
                assert forall|j: int| offset <= j < offset + 8 implies (#[trigger] d@[j]) != 0x5c
                    && d@[j] != 0x22 by {
                    assert(d@[j] == chunk@[j - offset]);
                }
                lemma_closing_quote_run(d@, offset as int, offset + 8);
            }
            offset += 8;
        }

        let mut pos: usize = offset;
        while pos < n
            invariant
                1 <= pos,
                n == d@.len(),
                closing_quote(d@, 1) == closing_quote(d@, pos as int),
            decreases n + 1 - pos,
        {
            if d[pos] == 0x5c {
                if n - pos < 2 {
                    assert(closing_quote(d@, pos + 2) is None);
                    return Err(Error::eof());
                }
                pos += 2;
            } else if d[pos] == 0x22 {
                let scalar = self.flavor.scalar(slice_subrange(d, 1, pos));
                return Ok((scalar, slice_subrange(d, pos + 1, n)));
            } else {
                pos += 1;
            }
        }
        Err(Error::eof())
    }

    /// Reads the quoted scalar at the start of `d` onto the tape.
    fn parse_quote_scalar(&mut self, d: &'a [u8]) -> (r: Result<&'a [u8], Error>)
        requires
            d@.len() >= 1,
        ensures
            final(self).data == old(self).data,
            final(self).length == old(self).length,
            final(self).flavor == old(self).flavor,
            match closing_quote(d@, 1) {
                Some(q) => r matches Ok(rest) && rest@ == tail(d@, q + 1) && tape_model(
                    final(self).token_tape@,
                ) == tape_model(old(self).token_tape@).push(Token::Scalar(d@.subrange(1, q))),
                None => r matches Err(e) && e@ == ErrorModel::Eof,
            },
    {
        match self._parse_quote_scalar(d) {
            Ok((scalar, rest)) => {
                self.token_tape.push(TextToken::Scalar(scalar));
                assert(tape_model(self.token_tape@) =~= tape_model(old(self).token_tape@).push(
                    Token::Scalar(scalar.bytes()),
                ));
                Ok(rest)
            },
            Err(e) => Err(e),
        }
    }

    /// Reads the unquoted scalar at the start of `d` onto the tape.
    fn parse_scalar(&mut self, d: &'a [u8]) -> (rest: &'a [u8])
        requires
            d@.len() > 0,
        ensures
            final(self).data == old(self).data,
            final(self).length == old(self).length,
            final(self).flavor == old(self).flavor,
            rest@ == tail(d@, scalar_len(d@)),
            1 <= scalar_len(d@) <= d@.len(),
            tape_model(final(self).token_tape@) == tape_model(old(self).token_tape@).push(
                Token::Scalar(d@.subrange(0, scalar_len(d@))),
            ),
    {
        let (scalar, rest) = self.split_at_scalar(d);
        self.token_tape.push(TextToken::Scalar(scalar));
        assert(tape_model(self.token_tape@) =~= tape_model(old(self).token_tape@).push(
            Token::Scalar(scalar.bytes()),
        ));
        rest
    }

    /// Skips the `=` between a key and its value.
    ///
    /// Most keys and values are separated by an equal sign, but some fields
    /// come without one, as in `map_area_data{ ... }`.
    fn parse_key_value_separator(&self, d: &'a [u8]) -> (rest: &'a [u8])
        requires
            d@.len() > 0,
        ensures
            rest@ == (if d@[0] == 0x3d {
                tail(d@, 1)
            } else {
                d@
            }),
    {
        if d[0] == 0x3d {
            slice_subrange(d, 1, d.len())
        } else {
            d
        }
    }

    /// Appends `token` to the tape.
    fn push_token(&mut self, token: TextToken<S>)
        ensures
            final(self).data == old(self).data,
            final(self).length == old(self).length,
            final(self).flavor == old(self).flavor,
            final(self).token_tape@.len() == old(self).token_tape@.len() + 1,
            tape_model(final(self).token_tape@) == tape_model(old(self).token_tape@).push(
                token.model(),
            ),
    {
        self.token_tape.push(token);
        assert(tape_model(self.token_tape@) =~= tape_model(old(self).token_tape@).push(
            token.model(),
        ));
    }

    /// Writes `token` over the token at `i`.
    fn set_token(&mut self, i: usize, token: TextToken<S>)
        requires
            i < old(self).token_tape@.len(),
        ensures
            final(self).data == old(self).data,
            final(self).length == old(self).length,
            final(self).flavor == old(self).flavor,
            final(self).token_tape@.len() == old(self).token_tape@.len(),
            tape_model(final(self).token_tape@) == tape_model(old(self).token_tape@).update(
                i as int,
                token.model(),
            ),
    {
        self.token_tape[i] = token;
        assert(tape_model(self.token_tape@) =~= tape_model(old(self).token_tape@).update(
            i as int,
            token.model(),
        ));
    }

    /// Slips `token` in before the token at `i`.
    fn insert_token(&mut self, i: usize, token: TextToken<S>)
        requires
            i <= old(self).token_tape@.len(),
        ensures
            final(self).data == old(self).data,
            final(self).length == old(self).length,
            final(self).flavor == old(self).flavor,
            final(self).token_tape@.len() == old(self).token_tape@.len() + 1,
            tape_model(final(self).token_tape@) == tape_model(old(self).token_tape@).insert(
                i as int,
                token.model(),
            ),
    {
        self.token_tape.insert(i, token);
        assert(tape_model(self.token_tape@) =~= tape_model(old(self).token_tape@).insert(
            i as int,
            token.model(),
        ));
    }

    /// The index that the container at `i` holds; 0 where there is none.
    fn link_at(&self, i: usize) -> (r: usize)
        ensures
            r == link(tape_model(self.token_tape@), i as int),
    {
        if i < self.token_tape.len() {
            match &self.token_tape[i] {
                TextToken::Array(x) => *x,
                TextToken::Object(x) => *x,
                _ => 0,
            }
        } else {
            0
        }
    }

    /// What is expected inside the container at `i`.
    fn state_at(&self, i: usize) -> (r: ParseState)
        ensures
            r == state_over(tape_model(self.token_tape@), i as int),
    {
        if i < self.token_tape.len() {
            match &self.token_tape[i] {
                TextToken::Array(_) => ParseState::ArrayValue,
                _ => ParseState::Key,
            }
        } else {
            ParseState::Key
        }
    }

    /// Whether the token at `i` is a scalar.
    fn is_scalar_at(&self, i: usize) -> (r: bool)
        requires
            i < self.token_tape@.len(),
        ensures
            r == (tape_model(self.token_tape@)[i as int] is Scalar),
    {
        match &self.token_tape[i] {
            TextToken::Scalar(_) => true,
            _ => false,
        }
    }

    /// The error for a colour channel that is no unsigned number.
    fn channel_error(&self, data: &[u8], channel: F::ReturnScalar) -> (e: Error)
        requires
            data@.len() <= self.length,
        ensures
            e@ == report::<S>(
                Fault::Channel(self.length - data@.len(), channel.bytes()),
            ),
    {
        let text = channel.to_utf8_owned();
        let msg = String::from_str("unable to decode color channel: ").concat(text.as_str());
        Error::new(ErrorKind::InvalidSyntax { offset: self.offset(data), msg })
    }

    /// The machine that the parser is, with what it has still to read and the
    /// variables of its loop.
    spec fn machine(
        &self,
        rest: Seq<u8>,
        state: ParseState,
        parent: usize,
        hidden: Option<usize>,
        red: u32,
        green: u32,
        blue: u32,
    ) -> Machine {
        Machine {
            rest,
            state,
            parent: parent as int,
            hidden: match hidden {
                Some(a) => Some(a as int),
                None => None,
            },
            red,
            green,
            blue,
            tape: tape_model(self.token_tape@),
        }
    }

    /// The input that the parser was made for.
    pub closed spec fn input(&self) -> Seq<u8> {
        self.data@
    }

    /// The tape in plain values.
    pub closed spec fn tape(&self) -> Seq<Token> {
        tape_model(self.token_tape@)
    }

    /// Nothing has been parsed yet.
    pub closed spec fn fresh(&self) -> bool {
        self.length == self.data@.len() && self.token_tape@.len() == 0
    }

    /// Parses the data onto the tape, which has to be empty: the tape becomes
    /// what the run of the machine over the whole input comes to.
    pub fn parse(&mut self) -> (r: Result<(), Error>)
        requires
            old(self).fresh(),
        ensures
            final(self).input() == old(self).input(),
            match r {
                Ok(()) => parse_model(old(self).input()) == Ok::<Seq<Token>, Fault>(
                    final(self).tape(),
                ),
                Err(e) => parse_model(old(self).input()) matches Err(f) && e@ == report::<S>(f),
            },
            r is Ok ==> well_nested(final(self).tape()) && linked(final(self).tape()) && laminar(
                final(self).tape(),
            ),
    {
        let mut data = self.data;
        let mut state = ParseState::Key;
        let mut red: u32 = 0;
        let mut green: u32 = 0;
        let mut blue: u32 = 0;

        // This variable keeps track of outer array when we're parsing a hidden object.
        // A hidden object textually looks like:
        //     levels={ 10 0=2 1=2 }
        // which is written to the tape as
        //     levels={ 10 { 0=2 1=2 } }
        // with the help of this variable. As when we'll only see one END token to signify
        // both the end of the array and object, but we'll produce two TextToken::End.
        let mut array_ind_of_hidden_obj: Option<usize> = None;

        // The word `rgb` where it was last met: it becomes a scalar if no `{` follows.
        let mut rgb = slice_subrange(data, 0, 0);

        let mut parent_ind: usize = 0;
        let ghost total = self.length as int;
        assert(tape_model(self.token_tape@) =~= Seq::<Token>::empty());
        loop
            invariant
                self.data == old(self).data,
                self.length == total,
                data@.len() <= total,
                state == ParseState::RgbOpen ==> rgb@ == rgb_word(),
                sound(
                    self.machine(
                        data@,
                        state,
                        parent_ind,
                        array_ind_of_hidden_obj,
                        red,
                        green,
                        blue,
                    ),
                ),
                run(
                    total,
                    self.machine(
                        data@,
                        state,
                        parent_ind,
                        array_ind_of_hidden_obj,
                        red,
                        green,
                        blue,
                    ),
                ) == parse_model(old(self).data@),
            decreases
                    fuel(
                        self.machine(
                            data@,
                            state,
                            parent_ind,
                            array_ind_of_hidden_obj,
                            red,
                            green,
                            blue,
                        ),
                    ),
        {
            let ghost m = self.machine(
                data@,
                state,
                parent_ind,
                array_ind_of_hidden_obj,
                red,
                green,
                blue,
            );
            proof {
                lemma_skip_ws_bounds(data@, 0, false);
                lemma_step_burns_fuel(total, m);
                lemma_step_sound(total, m);
            }
            data = self.skip_ws_t(data);
            if data.len() == 0 {
                if state == ParseState::RgbOpen {
                    state = ParseState::Key;
                    let scalar = self.flavor.scalar(rgb);
                    self.push_token(TextToken::Scalar(scalar));
                }
                if parent_ind == 0 && state == ParseState::Key {
                    proof {
                        lemma_parse_well_nested(self.data@);
                        lemma_parse_linked(self.data@);
                        lemma_parse_laminar(self.data@);
                    }
                    return Ok(());
                } else {
                    return Err(Error::eof());
                }
            }
            proof {
                lemma_find_boundary_bounds(data@, 0);
                lemma_closing_quote_bounds(data@, 1);
            }

            match state {
                ParseState::EmptyObject => {
                    if data[0] != 0x7d {
                        return Err(
                            Error::new(
                                ErrorKind::InvalidEmptyObject { offset: self.offset(data) },
                            ),
                        );
                    }
                    data = slice_subrange(data, 1, data.len());
                    state = ParseState::Key;
                },
                ParseState::Key => {
                    let c = data[0];
                    if c == 0x7d {
                        let grand_ind = self.link_at(parent_ind);
                        state = self.state_at(grand_ind);
                        let end_idx = self.token_tape.len();
                        if parent_ind == 0 && grand_ind == 0 {
                            return Err(
                                Error::new(ErrorKind::StackEmpty { offset: self.offset(data) }),
                            );
                        }
                        if let Some(array_ind) = array_ind_of_hidden_obj {
                            // Only the hidden object itself can be closed while its array
                            // waits to be closed with it
                            if grand_ind != array_ind {
                                return Err(
                                    Error::new(
                                        ErrorKind::InvalidSyntax {
                                            offset: self.offset(data),
                                            msg: String::from_str(
                                                "unable to close an object inside a hidden object",
                                            ),
                                        },
                                    ),
                                );
                            }
                        }
                        if parent_ind < end_idx {
                            self.set_token(parent_ind, TextToken::Object(end_idx));
                        }
                        self.push_token(TextToken::End(parent_ind));

                        match array_ind_of_hidden_obj {
                            Some(array_ind) => {
                                array_ind_of_hidden_obj = None;
                                let end_idx = self.token_tape.len();
                                self.push_token(TextToken::End(array_ind));

                                // Grab the grand parent from the outer array
                                let grand_ind = if array_ind < self.token_tape.len() {
                                    let above = match &self.token_tape[array_ind] {
                                        TextToken::Array(x) => *x,
                                        _ => 0,
                                    };
                                    self.set_token(array_ind, TextToken::Array(end_idx));
                                    above
                                } else {
                                    0
                                };
                                state = self.state_at(grand_ind);
                                parent_ind = grand_ind;
                            },
                            None => {
                                parent_ind = grand_ind;
                            },
                        }
                        data = slice_subrange(data, 1, data.len());
                    } else if c == 0x7b {
                        // Empty object! Skip
                        data = slice_subrange(data, 1, data.len());
                        state = ParseState::EmptyObject;
                    } else if c == 0x22 {
                        data = self.parse_quote_scalar(data)?;
                        state = ParseState::KeyValueSeparator;
                    } else {
                        data = self.parse_scalar(data);
                        state = ParseState::KeyValueSeparator;
                    }
                },
                ParseState::KeyValueSeparator => {
                    data = self.parse_key_value_separator(data);
                    state = ParseState::ObjectValue;
                },
                ParseState::ObjectValue => {
                    let c = data[0];
                    if c == 0x7b {
                        self.push_token(TextToken::Array(0));
                        state = ParseState::ParseOpen;
                        data = slice_subrange(data, 1, data.len());
                    } else if c == 0x7d {
                        // Check to not parse too far into the object's array trailer
                        state = ParseState::Key;
                    } else if c == 0x22 {
                        data = self.parse_quote_scalar(data)?;
                        state = ParseState::Key;
                    } else if c == 0x72 {
                        let rgb_detected = data.len() > 3 && data[1] == 0x67 && data[2] == 0x62
                            && is_boundary(data[3]);
                        if rgb_detected {
                            rgb = slice_subrange(data, 0, 3);
                            assert(rgb@ =~= rgb_word());
                            data = slice_subrange(data, 3, data.len());
                            state = ParseState::RgbOpen;
                        } else {
                            data = self.parse_scalar(data);
                            state = ParseState::Key;
                        }
                    } else {
                        data = self.parse_scalar(data);
                        state = ParseState::Key;
                    }
                },
                ParseState::ParseOpen => {
                    let c = data[0];
                    if c == 0x7d {
                        // Empty array
                        let ind = self.token_tape.len() - 1;
                        state = self.state_at(parent_ind);
                        self.set_token(ind, TextToken::Array(ind + 1));
                        self.push_token(TextToken::End(ind));
                        data = slice_subrange(data, 1, data.len());
                    } else if c == 0x7b {
                        // Array of objects
                        let ind = self.token_tape.len() - 1;
                        self.set_token(ind, TextToken::Array(parent_ind));
                        parent_ind = ind;
                        state = ParseState::ArrayValue;
                    } else if c == 0x22 {
                        data = self.parse_quote_scalar(data)?;
                        state = ParseState::FirstValue;
                    } else {
                        data = self.parse_scalar(data);
                        state = ParseState::FirstValue;
                    }
                },
                ParseState::FirstValue => {
                    let ind = self.token_tape.len() - 2;
                    if data[0] == 0x3d {
                        self.set_token(ind, TextToken::Object(parent_ind));
                        data = slice_subrange(data, 1, data.len());
                        parent_ind = ind;
                        state = ParseState::ObjectValue;
                    } else {
                        self.set_token(ind, TextToken::Array(parent_ind));
                        parent_ind = ind;
                        state = ParseState::ArrayValue;
                    }
                },
                ParseState::ArrayValue => {
                    let c = data[0];
                    if c == 0x7b {
                        self.push_token(TextToken::Array(0));
                        state = ParseState::ParseOpen;
                        data = slice_subrange(data, 1, data.len());
                    } else if c == 0x7d {
                        let grand_ind = self.link_at(parent_ind);
                        state = self.state_at(grand_ind);
                        let end_idx = self.token_tape.len();
                        self.set_token(parent_ind, TextToken::Array(end_idx));
                        self.push_token(TextToken::End(parent_ind));
                        parent_ind = grand_ind;
                        data = slice_subrange(data, 1, data.len());
                    } else if c == 0x22 {
                        data = self.parse_quote_scalar(data)?;
                        state = ParseState::ArrayValue;
                    } else if c == 0x3d {
                        // Hidden objects inside lists are made explicit
                        let at = self.token_tape.len() - 1;
                        if !self.is_scalar_at(at) {
                            return Err(
                                Error::new(
                                    ErrorKind::InvalidSyntax {
                                        offset: self.offset(data),
                                        msg: String::from_str(
                                            "hidden object must start with a scalar key",
                                        ),
                                    },
                                ),
                            );
                        }
                        self.insert_token(at, TextToken::Object(parent_ind));
                        array_ind_of_hidden_obj = Some(parent_ind);
                        parent_ind = at;
                        state = ParseState::ObjectValue;
                        data = slice_subrange(data, 1, data.len());
                    } else {
                        data = self.parse_scalar(data);
                        state = ParseState::ArrayValue;
                    }
                },
                ParseState::RgbOpen => {
                    if data[0] == 0x7b {
                        data = slice_subrange(data, 1, data.len());
                        state = ParseState::RgbR;
                    } else {
                        state = ParseState::Key;
                        let scalar = self.flavor.scalar(rgb);
                        self.push_token(TextToken::Scalar(scalar));
                    }
                },
                ParseState::RgbR => {
                    let (r, rest) = self.split_at_scalar(data);
                    match r.to_u64() {
                        Ok(x) => {
                            red = #[verifier::truncate]
                            (x as u32);
                        },
                        Err(_) => {
                            return Err(self.channel_error(data, r));
                        },
                    }
                    state = ParseState::RgbG;
                    data = rest;
                },
                ParseState::RgbG => {
                    let (r, rest) = self.split_at_scalar(data);
                    match r.to_u64() {
                        Ok(x) => {
                            green = #[verifier::truncate]
                            (x as u32);
                        },
                        Err(_) => {
                            return Err(self.channel_error(data, r));
                        },
                    }
                    state = ParseState::RgbB;
                    data = rest;
                },
                ParseState::RgbB => {
                    let (r, rest) = self.split_at_scalar(data);
                    match r.to_u64() {
                        Ok(x) => {
                            blue = #[verifier::truncate]
                            (x as u32);
                        },
                        Err(_) => {
                            return Err(self.channel_error(data, r));
                        },
                    }
                    state = ParseState::RgbClose;
                    data = rest;
                },
                ParseState::RgbClose => {
                    if data[0] == 0x7d {
                        self.push_token(
                            TextToken::Rgb(Box::new(Rgb { r: red, g: green, b: blue })),
                        );
                        data = slice_subrange(data, 1, data.len());
                        state = ParseState::Key;
                    } else {
                        return Err(
                            Error::new(
                                ErrorKind::InvalidSyntax {
                                    offset: self.offset(data),
                                    msg: String::from_str("unable to detect rgb close"),
                                },
                            ),
                        );
                    }
                },
            }
            assert(step(total, m) == Step::Goes(
                self.machine(data@, state, parent_ind, array_ind_of_hidden_obj, red, green, blue),
            ));
        }
    }
}

} // verus!
