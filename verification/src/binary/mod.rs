//! What the binary format shares with the text format.

pub mod flavor;
