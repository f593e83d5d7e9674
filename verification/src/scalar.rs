//! Scalars: borrowed runs of bytes that are decoded on demand into numbers,
//! booleans and strings.

use std::borrow::Cow;
use vstd::prelude::*;
use vstd::string::StringSliceAdditionalSpecFns;
use vstd::utf8::{decode_utf8, encode_utf8, valid_utf8};
use crate::ascii::{is_ascii, spec_is_ascii};
use crate::number::{
    parse_bool, parse_decimal, parse_i64, parse_u64, to_bool, to_decimal, to_i64, to_u64,
};
use crate::windows1252::{
    decode_windows_1252, is_plain, trim_end, windows_1252_to_utf8, windows_1252_to_utf8_owned,
};

verus! {

/// An error that can occur when converting a scalar into the requested type.
#[derive(Debug, Clone, Copy, PartialEq, Eq, Structural)]
pub enum ScalarError {
    /// The given scalar did not contain only numbers
    AllDigits,
    /// The given scalar caused an overflow when calculating its numerical value
    Overflow,
    /// The given scalar was not a recognized boolean value
    InvalidBool,
}

impl ScalarError {
    /// What went wrong, in words.
    pub fn message(&self) -> (msg: &'static str)
        ensures
            msg@ == (match *self {
                ScalarError::AllDigits => "scalar did not contain all digits"@,
                ScalarError::InvalidBool => "scalar is not a valid bool"@,
                ScalarError::Overflow => "scalar caused an overflow"@,
            }),
    {
        match self {
            ScalarError::AllDigits => "scalar did not contain all digits",
            ScalarError::InvalidBool => "scalar is not a valid bool",
            ScalarError::Overflow => "scalar caused an overflow",
        }
    }
}

/// A decimal number in three integers: the part before the point, the digits
/// behind it read as a number of their own, which is never negative, and the
/// power of ten that has as many zeros as there are digits behind the point.
/// The number is `lead + frac / scale` where `lead` is not negative, and
/// `lead - frac / scale` where it is.
#[derive(Debug, Clone, Copy, PartialEq, Eq, Structural)]
pub struct Decimal {
    /// The number before the point
    pub lead: i64,
    /// The digits behind the point, as a number
    pub frac: i64,
    /// Ten to the number of digits behind the point
    pub scale: u32,
}

/// The text that `String::from_utf8_lossy` makes of `bytes`: well-formed
/// UTF-8 decoded, each ill-formed sequence replaced by U+FFFD.
pub uninterp spec fn utf8_lossy(bytes: Seq<u8>) -> Seq<char>;

/// `String::from_utf8_lossy`: the text is the lossy decoding of the bytes;
/// well-formed UTF-8 is borrowed as it stands, anything else is rewritten
/// into an owned string.
pub assume_specification<'a>[ String::from_utf8_lossy ](v: &'a [u8]) -> (r: Cow<'a, str>)
    ensures
        r@ == utf8_lossy(v@),
        r is Borrowed <==> valid_utf8(v@),
        r matches Cow::Borrowed(s) ==> s.spec_bytes() == v@,
;

/// A borrowed run of bytes with an encoding, decoded only when asked.
pub trait Scalar<'a>: Copy {
    /// The bytes of the scalar.
    spec fn bytes(&self) -> Seq<u8>;

    /// The text that the encoding makes of `bytes`.
    spec fn decode(bytes: Seq<u8>) -> Seq<char>;

    /// Whether the text of `bytes` is borrowed from them, not built anew.
    spec fn borrows(bytes: Seq<u8>) -> bool;

    /// View the underlying data
    fn view_data(&self) -> (d: &'a [u8])
        ensures
            d@ == self.bytes(),
    ;

    /// The text of the scalar, borrowed from its bytes where they are their
    /// own text.
    fn to_utf8(&self) -> (r: Cow<'a, str>)
        ensures
            r@ == Self::decode(self.bytes()),
            r is Borrowed <==> Self::borrows(self.bytes()),
    ;

    /// The text of the scalar as a string of its own.
    fn to_utf8_owned(&self) -> (r: String)
        ensures
            r@ == Self::decode(self.bytes()),
    ;

    /// The scalar as a decimal number, split at its point.
    fn to_decimal(&self) -> (r: Result<Decimal, ScalarError>)
        ensures
            r == parse_decimal(self.bytes()),
    {
        to_decimal(self.view_data())
    }

    /// The scalar as a boolean.
    fn to_bool(&self) -> (r: Result<bool, ScalarError>)
        ensures
            r == parse_bool(self.bytes()),
    {
        to_bool(self.view_data())
    }

    /// The scalar as a signed integer.
    fn to_i64(&self) -> (r: Result<i64, ScalarError>)
        ensures
            r == parse_i64(self.bytes()),
    {
        to_i64(self.view_data())
    }

    /// The scalar as an unsigned integer.
    fn to_u64(&self) -> (r: Result<u64, ScalarError>)
        ensures
            r == parse_u64(self.bytes()),
    {
        to_u64(self.view_data())
    }

    /// Whether the scalar holds ASCII only.
    fn is_ascii(&self) -> (r: bool)
        ensures
            r == spec_is_ascii(self.bytes()),
    {
        is_ascii(self.view_data())
    }
}

/// Single value encapsulating UTF-8 data.
#[derive(Debug, PartialEq, Copy, Clone)]
pub struct ScalarUtf8<'a> {
    data: &'a [u8],
}

impl<'a> View for ScalarUtf8<'a> {
    type V = Seq<u8>;

    closed spec fn view(&self) -> Seq<u8> {
        self.data@
    }
}

impl<'a> ScalarUtf8<'a> {
    /// Create a new scalar backed by a UTF-8 encoded byte slice
    pub fn new(data: &'a [u8]) -> (s: Self)
        ensures
            s@ == data@,
    {
        ScalarUtf8 { data }
    }
}

impl<'a> Scalar<'a> for ScalarUtf8<'a> {
    open spec fn bytes(&self) -> Seq<u8> {
        self@
    }

    open spec fn decode(bytes: Seq<u8>) -> Seq<char> {
        utf8_lossy(bytes)
    }

    open spec fn borrows(bytes: Seq<u8>) -> bool {
        valid_utf8(bytes)
    }

    fn view_data(&self) -> (d: &'a [u8]) {
        self.data
    }

    fn to_utf8(&self) -> (r: Cow<'a, str>)
        ensures
            valid_utf8(self@) ==> r@ == decode_utf8(self@),
    {
        let r = String::from_utf8_lossy(self.data);
        proof {
            broadcast use vstd::utf8::encode_utf8_decode_utf8;

            if valid_utf8(self@) {
                assert(decode_utf8(encode_utf8(r@)) == r@);
            }
        }
        r
    }

    fn to_utf8_owned(&self) -> (r: String)
        ensures
            valid_utf8(self@) ==> r@ == decode_utf8(self@),
    {
        match self.to_utf8() {
            Cow::Borrowed(s) => s.to_owned(),
            Cow::Owned(s) => s,
        }
    }
}

/// Single value encapsulating windows-1252 data.
///
/// Since windows-1252 is a single byte character encoding, a scalar will
/// never fail to be created.
#[derive(Debug, PartialEq, Copy, Clone)]
pub struct Scalar1252<'a> {
    data: &'a [u8],
}

impl<'a> View for Scalar1252<'a> {
    type V = Seq<u8>;

    closed spec fn view(&self) -> Seq<u8> {
        self.data@
    }
}

impl<'a> Scalar1252<'a> {
    /// Create a new scalar backed by windows-1252 encoded byte slice
    pub fn new(data: &'a [u8]) -> (s: Self)
        ensures
            s@ == data@,
    {
        Scalar1252 { data }
    }
}

impl<'a> Scalar<'a> for Scalar1252<'a> {
    open spec fn bytes(&self) -> Seq<u8> {
        self@
    }

    open spec fn decode(bytes: Seq<u8>) -> Seq<char> {
        decode_windows_1252(bytes)
    }

    open spec fn borrows(bytes: Seq<u8>) -> bool {
        trim_end(bytes) == bytes && is_plain(bytes)
    }

    fn view_data(&self) -> (d: &'a [u8]) {
        self.data
    }

    fn to_utf8(&self) -> (r: Cow<'a, str>) {
        windows_1252_to_utf8(self.data)
    }

    fn to_utf8_owned(&self) -> (r: String) {
        windows_1252_to_utf8_owned(self.data)
    }
}

} // verus!
