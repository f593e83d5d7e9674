//! A low level, performance oriented parser for the plain-text save and
//! configuration format of Paradox grand strategy titles.
//!
//! A document is parsed in one pass into a tape: a flat run of tokens in
//! which every container holds the position of its end. Scalars are kept as
//! the bytes they were read from and decoded only when asked.
//!
//! ```ignore
//! use jomini::{Scalar1252, TextParser, TextToken};
//!
//! let tape = TextParser::from_windows1252(b"foo=bar").unwrap();
//! assert_eq!(
//!     tape.tokens(),
//!     &[
//!         TextToken::Scalar(Scalar1252::new(b"foo")),
//!         TextToken::Scalar(Scalar1252::new(b"bar")),
//!     ]
//! );
//! ```
//!
//! Every function comes with a contract that Verus proves of it. What the
//! parser returns is what the run of a state machine comes to, which
//! `text::model` defines over plain values; `text::laws` states what holds of
//! every tape that the parser writes. The numbers and strings that scalars
//! decode to are defined in `number` and `windows1252`.

pub mod ascii;
pub mod binary;
pub mod data;
pub mod encoding;
pub mod errors;
pub mod number;
pub mod scalar;
pub mod text;
pub mod util;
pub mod windows1252;

pub use self::binary::flavor::{Ck3Flavor, Eu4Flavor};
pub use self::data::Rgb;
pub use self::encoding::{Encoding, Utf8, Windows1252};
pub use self::errors::{Error, ErrorKind};
pub use self::scalar::{Decimal, Scalar, Scalar1252, ScalarError, ScalarUtf8};
pub use self::text::tape::{TextParser, TextTape, TextTapeParser, TextToken};
