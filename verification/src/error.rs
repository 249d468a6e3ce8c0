//! Error kinds of the preprocessor.
//!
//! All failures of a `process` call are fatal and propagate to the caller
//! unchanged; no partial output is ever returned.

use vstd::prelude::*;

verus! {

/// Spec-level image of a [`ParseError`]: directive-name payloads appear as
/// character sequences.
pub enum ParseErrorView {
    UnknownPreprocessorDirective(Seq<char>),
    MissingParameter,
    MissingNewline,
    UnsupportedPreprocessor(Seq<char>),
    UnrecognizedPreprocessor(Seq<char>),
    UnexpectedPreprocessor(Seq<char>),
    ElseWithoutEndif,
    IfWithoutEndif,
}

/// An error found while grouping tokens into items.
#[derive(Debug, Clone, PartialEq)]
pub enum ParseError {
    /// Reserved for directives that are recognized but cannot be parsed.
    UnknownPreprocessorDirective(String),
    /// A directive misses its mandatory parameter (a name or a path).
    MissingParameter,
    /// A directive that must end its line is followed by another token.
    MissingNewline,
    /// A directive of the full C preprocessor that this library refuses.
    UnsupportedPreprocessor(String),
    /// A directive name that is not known at all.
    UnrecognizedPreprocessor(String),
    /// `#else` or `#endif` outside of any conditional.
    UnexpectedPreprocessor(String),
    /// An `#else` branch that never reaches its `#endif`.
    ElseWithoutEndif,
    /// A conditional that never reaches its `#endif`.
    IfWithoutEndif,
}

impl View for ParseError {
    type V = ParseErrorView;

    open spec fn view(&self) -> ParseErrorView {
        match self {
            ParseError::UnknownPreprocessorDirective(s) => {
                ParseErrorView::UnknownPreprocessorDirective(s@)
            },
            ParseError::MissingParameter => ParseErrorView::MissingParameter,
            ParseError::MissingNewline => ParseErrorView::MissingNewline,
            ParseError::UnsupportedPreprocessor(s) => {
                ParseErrorView::UnsupportedPreprocessor(s@)
            },
            ParseError::UnrecognizedPreprocessor(s) => {
                ParseErrorView::UnrecognizedPreprocessor(s@)
            },
            ParseError::UnexpectedPreprocessor(s) => {
                ParseErrorView::UnexpectedPreprocessor(s@)
            },
            ParseError::ElseWithoutEndif => ParseErrorView::ElseWithoutEndif,
            ParseError::IfWithoutEndif => ParseErrorView::IfWithoutEndif,
        }
    }
}

/// Spec-level image of an [`Error`].
pub enum ErrorView {
    LexingError,
    ParsingError(ParseErrorView),
    CantOpenFile,
    MaxRecursionDepthReached,
}

/// Any error of the whole pipeline.
#[derive(Debug, Clone, PartialEq)]
pub enum Error {
    /// No lexing rule matches, or a string or block comment never closes.
    LexingError,
    /// The token stream cannot be grouped into items.
    ParsingError(ParseError),
    /// The file loader returned nothing for an included path.
    CantOpenFile,
    /// Macro substitution exceeded its depth bound, or includes nest too
    /// deeply.
    MaxRecursionDepthReached,
}

impl View for Error {
    type V = ErrorView;

    open spec fn view(&self) -> ErrorView {
        match self {
            Error::LexingError => ErrorView::LexingError,
            Error::ParsingError(p) => ErrorView::ParsingError(p@),
            Error::CantOpenFile => ErrorView::CantOpenFile,
            Error::MaxRecursionDepthReached => ErrorView::MaxRecursionDepthReached,
        }
    }
}

} // verus!
