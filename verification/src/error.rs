//! The failure channel of a parse: every error aborts the whole parse and
//! carries the section and the offending text needed for a diagnostic.

use vstd::prelude::*;

verus! {

/// The sections of an MPS file that the reader recognizes.
#[derive(Debug, Clone, Copy, PartialEq, Eq, Structural)]
pub enum Section {
    Name,
    Rows,
    Columns,
    Rhs,
    Bounds,
}

/// Why a parse failed.
#[derive(Debug, Clone, PartialEq, Eq)]
pub enum MpsError {
    /// The underlying line source failed; carries its message.
    IoFailure(String),
    /// A cleaned line held a character outside printable ASCII; carries the
    /// raw line.
    EncodingError(String),
    /// The input ended before a NAME line was seen.
    MissingNameLine,
    /// The NAME line did not start with `NAME` and ten spaces.
    FormatError,
    /// The NAME line's name field was blank.
    EmptyNameError,
    /// The input ended inside a section that must be closed by a header.
    UnexpectedEndOfInput(Section),
    /// A data line did not match the section's shape; carries the line.
    UnexpectedLineError(Section, String),
    /// A COLUMNS or RHS entry named a row never declared; carries the row id.
    UnknownRowReferenceError(Section, String),
    /// A value field was not a floating-point literal; carries the field.
    NumberFormatError(Section, String),
}

/// The specification-level image of an [`MpsError`], over character
/// sequences instead of owned strings.
pub ghost enum ErrView {
    Io(Seq<char>),
    Encoding(Seq<char>),
    MissingNameLine,
    Format,
    EmptyName,
    UnexpectedEnd(Section),
    UnexpectedLine(Section, Seq<char>),
    UnknownRowReference(Section, Seq<char>),
    NumberFormat(Section, Seq<char>),
}

impl View for MpsError {
    type V = ErrView;

    open spec fn view(&self) -> ErrView {
        match self {
            MpsError::IoFailure(m) => ErrView::Io(m@),
            MpsError::EncodingError(l) => ErrView::Encoding(l@),
            MpsError::MissingNameLine => ErrView::MissingNameLine,
            MpsError::FormatError => ErrView::Format,
            MpsError::EmptyNameError => ErrView::EmptyName,
            MpsError::UnexpectedEndOfInput(s) => ErrView::UnexpectedEnd(*s),
            MpsError::UnexpectedLineError(s, l) => ErrView::UnexpectedLine(*s, l@),
            MpsError::UnknownRowReferenceError(s, i) => ErrView::UnknownRowReference(*s, i@),
            MpsError::NumberFormatError(s, v) => ErrView::NumberFormat(*s, v@),
        }
    }
}

} // verus!
