//! The flavors of the binary format: each game encodes its scalars in one of
//! the two encodings.

use vstd::prelude::*;
use crate::encoding::{Encoding, Utf8, Windows1252};
use crate::scalar::{Scalar1252, ScalarUtf8};

verus! {

/// The eu4 binary flavor
#[derive(Debug)]
pub struct Eu4Flavor(Windows1252);

impl Eu4Flavor {
    /// The encoding of the flavor's scalars
    pub closed spec fn encoding(&self) -> Windows1252 {
        self.0
    }

    /// Creates the flavor
    pub fn new() -> (flavor: Self)
        ensures
            flavor.encoding() == Windows1252,
    {
        Eu4Flavor(Windows1252::new())
    }
}

impl Default for Eu4Flavor {
    fn default() -> (flavor: Self)
        ensures
            flavor.encoding() == Windows1252,
    {
        Eu4Flavor::new()
    }
}

impl<'a> Encoding<'a> for Eu4Flavor {
    type ReturnScalar = Scalar1252<'a>;

    fn scalar(&self, data: &'a [u8]) -> (s: Self::ReturnScalar) {
        self.0.scalar(data)
    }
}

/// The ck3 binary flavor
#[derive(Debug)]
pub struct Ck3Flavor(Utf8);

impl Ck3Flavor {
    /// The encoding of the flavor's scalars
    pub closed spec fn encoding(&self) -> Utf8 {
        self.0
    }

    /// Creates the flavor
    pub fn new() -> (flavor: Self)
        ensures
            flavor.encoding() == Utf8,
    {
        Ck3Flavor(Utf8::new())
    }
}

impl Default for Ck3Flavor {
    fn default() -> (flavor: Self)
        ensures
            flavor.encoding() == Utf8,
    {
        Ck3Flavor::new()
    }
}

impl<'a> Encoding<'a> for Ck3Flavor {
    type ReturnScalar = ScalarUtf8<'a>;

    fn scalar(&self, data: &'a [u8]) -> (s: Self::ReturnScalar) {
        self.0.scalar(data)
    }
}

} // verus!
