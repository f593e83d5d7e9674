//! What holds of every tape that the parser writes.
//!
//! Every container is linked with its `End`, the containers are nested, the
//! walk from value to value lands on the end of the tape, and the tape,
//! written out and parsed again, is the same tape. Text in which a hidden
//! object is not written as it is meant to be gives no tape to speak of: the
//! parser rejects it.

use vstd::prelude::*;
use crate::text::model::{after, lemma_after, parse_model, sound, start, Fault, Token};
use crate::text::nesting::{
    laminar, lemma_nested_reaches, lemma_run_inv, lemma_well_nested_laminar,
    lemma_well_nested_linked, linked, nested, reaches, well_nested,
};
use crate::text::print::{canonical_text, printable_document};
use crate::text::roundtrip::lemma_parse_canonical_text;
use crate::text::written::lemma_parse_printable;

verus! {

/// The parse of any input ends: it takes no more than three turns for each
/// byte of the input. As long as it goes on, every index that the parser
/// takes lies on the tape.
pub proof fn lemma_parse_ends(data: Seq<u8>, k: nat)
    ensures
        after(data.len() as int, start(data), k) matches Some(m) ==> k <= 3 * data.len()
            && sound(m),
{
    lemma_after(data.len() as int, start(data), k);
}

/// The tape of a parse is well nested: its containers are closed in the
/// order in which they were opened.
pub proof fn lemma_parse_well_nested(data: Seq<u8>)
    ensures
        parse_model(data) matches Ok(tape) ==> well_nested(tape),
{
    assert(nested(start(data).tape, 0, 0));
    lemma_run_inv(data.len() as int, start(data));
}

/// On the tape of a parse every container points at its `End` and every
/// `End` points back at its container.
pub proof fn lemma_parse_linked(data: Seq<u8>)
    ensures
        parse_model(data) matches Ok(tape) ==> linked(tape),
{
    lemma_parse_well_nested(data);
    match parse_model(data) {
        Ok(tape) => {
            lemma_well_nested_linked(tape);
        },
        Err(_) => {},
    }
}

/// On the tape of a parse no two containers overlap: of any two, one lies
/// inside the other or behind it.
pub proof fn lemma_parse_laminar(data: Seq<u8>)
    ensures
        parse_model(data) matches Ok(tape) ==> laminar(tape),
{
    lemma_parse_well_nested(data);
    match parse_model(data) {
        Ok(tape) => {
            lemma_well_nested_laminar(tape);
        },
        Err(_) => {},
    }
}

/// On the tape of a parse, hopping from the first token over one value
/// after the other lands exactly on the end of the tape, as all containers
/// are balanced.
pub proof fn lemma_parse_reaches_end(data: Seq<u8>)
    ensures
        parse_model(data) matches Ok(tape) ==> reaches(tape, 0, tape.len() as int),
{
    lemma_parse_well_nested(data);
    match parse_model(data) {
        Ok(tape) => {
            lemma_nested_reaches(tape, 0, tape.len() as int);
        },
        Err(_) => {},
    }
}

/// The tape of a parse can be written as a document of keys and values.
pub proof fn lemma_parse_can_be_written(data: Seq<u8>)
    ensures
        parse_model(data) matches Ok(tape) ==> printable_document(tape),
{
    lemma_parse_printable(data);
}

/// The tape of a parse, written out in its canonical text and parsed again,
/// is the same tape.
pub proof fn lemma_parse_round_trip(data: Seq<u8>)
    ensures
        parse_model(data) matches Ok(tape) ==> parse_model(canonical_text(tape)) == Ok::<
            Seq<Token>,
            Fault,
        >(tape),
{
    lemma_parse_printable(data);
    match parse_model(data) {
        Ok(tape) => {
            lemma_parse_canonical_text(tape);
        },
        Err(_) => {},
    }
}

} // verus!
