//! What can go wrong while a document is parsed.

use vstd::prelude::*;

verus! {

/// Specific type of error
#[derive(Debug, Clone, PartialEq, Eq)]
pub enum ErrorKind {
    /// Unexpected end of input
    Eof,
    /// A container was closed that had never been opened
    StackEmpty {
        /// The position of the closing brace
        offset: usize,
    },
    /// An empty object was expected
    InvalidEmptyObject {
        /// The position of the byte that is no closing brace
        offset: usize,
    },
    /// The input does not read as anything the format knows
    InvalidSyntax {
        /// An error message describing the invalid syntax
        msg: String,
        /// The position of the offending byte
        offset: usize,
    },
}

/// An error kind in values that contracts can speak of.
pub enum ErrorModel {
    /// Unexpected end of input
    Eof,
    /// A container was closed that had never been opened
    StackEmpty { offset: int },
    /// An empty object was expected
    InvalidEmptyObject { offset: int },
    /// The input does not read as anything the format knows
    InvalidSyntax { msg: Seq<char>, offset: int },
}

impl View for ErrorKind {
    type V = ErrorModel;

    open spec fn view(&self) -> ErrorModel {
        match *self {
            ErrorKind::Eof => ErrorModel::Eof,
            ErrorKind::StackEmpty { offset } => ErrorModel::StackEmpty { offset: offset as int },
            ErrorKind::InvalidEmptyObject { offset } => ErrorModel::InvalidEmptyObject {
                offset: offset as int,
            },
            ErrorKind::InvalidSyntax { msg, offset } => ErrorModel::InvalidSyntax {
                msg: msg@,
                offset: offset as int,
            },
        }
    }
}

impl ErrorModel {
    /// The position in the input that the error points at, if it has one.
    pub open spec fn offset(self) -> Option<int> {
        match self {
            ErrorModel::Eof => None,
            ErrorModel::StackEmpty { offset } => Some(offset),
            ErrorModel::InvalidEmptyObject { offset } => Some(offset),
            ErrorModel::InvalidSyntax { offset, .. } => Some(offset),
        }
    }
}

/// An error that can occur when processing data
#[derive(Debug, Clone, PartialEq, Eq)]
pub struct Error {
    kind: ErrorKind,
}

impl View for Error {
    type V = ErrorModel;

    closed spec fn view(&self) -> ErrorModel {
        self.kind@
    }
}

impl Error {
    /// Creates an error of the given kind
    pub fn new(kind: ErrorKind) -> (e: Error)
        ensures
            e@ == kind@,
    {
        Error { kind }
    }

    /// Creates the error for an input that ends too early
    pub fn eof() -> (e: Error)
        ensures
            e@ == ErrorModel::Eof,
    {
        Error { kind: ErrorKind::Eof }
    }

    /// Return the specific type of error
    pub fn kind(&self) -> (k: &ErrorKind)
        ensures
            k@ == self@,
    {
        &self.kind
    }

    /// Unwrap the error into its kind
    pub fn into_kind(self) -> (k: ErrorKind)
        ensures
            k@ == self@,
    {
        self.kind
    }

    /// Returns the byte offset that the error occurs (if available)
    pub fn offset(&self) -> (o: Option<usize>)
        ensures
            o.is_some() == self@.offset().is_some(),
            o matches Some(x) ==> self@.offset() == Some(x as int),
    {
        match &self.kind {
            ErrorKind::Eof => None,
            ErrorKind::StackEmpty { offset } => Some(*offset),
            ErrorKind::InvalidEmptyObject { offset } => Some(*offset),
            ErrorKind::InvalidSyntax { offset, .. } => Some(*offset),
        }
    }
}

} // verus!
