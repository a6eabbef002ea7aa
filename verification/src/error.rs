//! What reading and writing can fail with.
use vstd::prelude::*;

use crate::{Transaction, TransactionView, views};

verus! {

/// The stream failures behind an `Io` error. Reading bytes meets the first two;
/// the third stands for any failure of the stream the bytes come from or go to.
#[derive(Debug, Clone, Copy, PartialEq, Eq, Structural)]
pub enum IoErrorKind {
    /// A line of a text format is not valid UTF-8.
    InvalidData,
    /// A binary record ends before its header or body is complete.
    UnexpectedEof,
    Other,
}

/// Why a sequence of transactions could not be read.
#[derive(Debug, Clone)]
pub enum ParseError {
    Io(IoErrorKind),
    InvalidHeaders { expected: String, found: String },
    InvalidFieldsCount { line_num: usize, fields_count: usize },
    InvalidTextFieldValue { field: String, value: String, line_num: usize },
    FieldValueNotFound(String),
    InvalidBinaryField(String),
}

/// Why transactions could not be written to a stream.
#[derive(Debug, Clone)]
pub enum WriteError {
    Io(IoErrorKind),
}

/// The mathematical value of a `ParseError`: its strings as characters.
pub enum ParseErrorView {
    Io(IoErrorKind),
    InvalidHeaders { expected: Seq<char>, found: Seq<char> },
    InvalidFieldsCount { line_num: nat, fields_count: nat },
    InvalidTextFieldValue { field: Seq<char>, value: Seq<char>, line_num: nat },
    FieldValueNotFound(Seq<char>),
    InvalidBinaryField(Seq<char>),
}

impl View for ParseError {
    type V = ParseErrorView;

    open spec fn view(&self) -> ParseErrorView {
        match self {
            ParseError::Io(k) => ParseErrorView::Io(*k),
            ParseError::InvalidHeaders { expected, found } => ParseErrorView::InvalidHeaders {
                expected: expected@,
                found: found@,
            },
            ParseError::InvalidFieldsCount { line_num, fields_count } =>
                ParseErrorView::InvalidFieldsCount {
                line_num: *line_num as nat,
                fields_count: *fields_count as nat,
            },
            ParseError::InvalidTextFieldValue { field, value, line_num } =>
                ParseErrorView::InvalidTextFieldValue {
                field: field@,
                value: value@,
                line_num: *line_num as nat,
            },
            ParseError::FieldValueNotFound(f) => ParseErrorView::FieldValueNotFound(f@),
            ParseError::InvalidBinaryField(f) => ParseErrorView::InvalidBinaryField(f@),
        }
    }
}

/// The value of the outcome of a read.
pub open spec fn outcome(r: Result<Vec<Transaction>, ParseError>) -> Result<
    Seq<TransactionView>,
    ParseErrorView,
> {
    match r {
        Ok(v) => Ok(views(v@)),
        Err(e) => Err(e@),
    }
}

} // verus!
