//! The plain-text format: tokens, the tape, and the parser that fills it.
//!
//! `tape` holds the parser and `model` the state machine that it is proved
//! to run. `laws` states what holds of every tape that the parser writes;
//! the other modules hold the proofs: `nesting` of the links and the nesting
//! of the containers, and `print`, `roundtrip` and `written` of the canonical
//! text of a tape and its parse.

pub mod laws;
pub mod model;
pub mod nesting;
pub mod print;
pub mod roundtrip;
pub mod tape;
pub mod written;
