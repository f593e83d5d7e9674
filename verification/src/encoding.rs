//! The encodings that a scalar's bytes can be read in.

use vstd::prelude::*;
use crate::scalar::{Scalar, Scalar1252, ScalarUtf8};

verus! {

/// An encoding makes scalars out of bytes.
pub trait Encoding<'a> {
    /// The scalar that this encoding makes
    type ReturnScalar: Scalar<'a>;

    /// Wraps `data`, without copying or reading it.
    fn scalar(&self, data: &'a [u8]) -> (s: Self::ReturnScalar)
        ensures
            s.bytes() == data@,
    ;
}

/// The Windows-1252 encoding
#[derive(Debug)]
pub struct Windows1252;

impl Windows1252 {
    /// Creates the encoding
    pub fn new() -> (e: Self)
        ensures
            e == Windows1252,
    {
        Windows1252
    }
}

impl Default for Windows1252 {
    fn default() -> (e: Self)
        ensures
            e == Windows1252,
    {
        Windows1252
    }
}

impl<'a> Encoding<'a> for Windows1252 {
    type ReturnScalar = Scalar1252<'a>;

    fn scalar(&self, data: &'a [u8]) -> (s: Self::ReturnScalar) {
        Scalar1252::new(data)
    }
}

/// The UTF-8 encoding
#[derive(Debug)]
pub struct Utf8;

impl Utf8 {
    /// Creates the encoding
    pub fn new() -> (e: Self)
        ensures
            e == Utf8,
    {
        Utf8
    }
}

impl Default for Utf8 {
    fn default() -> (e: Self)
        ensures
            e == Utf8,
    {
        Utf8
    }
}

impl<'a> Encoding<'a> for Utf8 {
    type ReturnScalar = ScalarUtf8<'a>;

    fn scalar(&self, data: &'a [u8]) -> (s: Self::ReturnScalar) {
        ScalarUtf8::new(data)
    }
}

} // verus!
