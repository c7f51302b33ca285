//! Error types for RouteGraph.
use vstd::prelude::*;
use vstd::string::*;

use crate::text::{decimal, push_decimal, string_of};

verus! {

/// `std::io::Error`, made known to Verus as an opaque type: an I/O error is
/// only carried through, never looked into.
#[verifier::external_type_specification]
#[verifier::external_body]
pub struct ExIoError(std::io::Error);

/// Error produced by a parser.
#[derive(Debug)]
pub enum ParseError {
    /// Malformed syntax at a known location.
    Syntax {
        /// Human-readable description.
        message: String,
        /// 1-based line number.
        line: u32,
    },
    /// Valid syntax but semantically wrong.
    Semantics {
        /// Human-readable description.
        message: String,
    },
    /// Filesystem / I/O error.
    Io {
        /// Underlying I/O error.
        source: std::io::Error,
        /// Path that caused the error.
        path: String,
    },
    /// Feature not yet supported by the parser.
    Unsupported(String),
}

/// The mathematical content of a [`ParseError`] (the I/O error itself is opaque).
pub enum ParseErrorView {
    Syntax { message: Seq<char>, line: u32 },
    Semantics { message: Seq<char> },
    Io { path: Seq<char> },
    Unsupported(Seq<char>),
}

impl View for ParseError {
    type V = ParseErrorView;

    open spec fn view(&self) -> ParseErrorView {
        match self {
            ParseError::Syntax { message, line } => ParseErrorView::Syntax { message: message@, line: *line },
            ParseError::Semantics { message } => ParseErrorView::Semantics { message: message@ },
            ParseError::Io { path, .. } => ParseErrorView::Io { path: path@ },
            ParseError::Unsupported(m) => ParseErrorView::Unsupported(m@),
        }
    }
}

/// How a parse error other than an I/O error is displayed.
pub open spec fn error_text(e: ParseErrorView) -> Seq<char> {
    match e {
        ParseErrorView::Syntax { message, line } => "syntax error (line "@ + decimal(line as nat) + "): "@ + message,
        ParseErrorView::Semantics { message } => "semantics error: "@ + message,
        ParseErrorView::Io { path } => path + ": "@,
        ParseErrorView::Unsupported(m) => "unsupported feature: "@ + m,
    }
}

impl ParseError {
    /// Creates a syntax error at a given line.
    pub fn syntax(msg: &str, line: u32) -> (r: Self)
        ensures
            r@ == (ParseErrorView::Syntax { message: msg@, line }),
    {
        ParseError::Syntax { message: string_of(msg), line }
    }

    /// Creates a semantics error.
    pub fn semantics(msg: &str) -> (r: Self)
        ensures
            r@ == (ParseErrorView::Semantics { message: msg@ }),
    {
        ParseError::Semantics { message: string_of(msg) }
    }

    /// Creates an I/O error with the path, as displayed, that caused it.
    pub fn io(source: std::io::Error, path: &str) -> (r: Self)
        ensures
            r@ == (ParseErrorView::Io { path: path@ }),
    {
        ParseError::Io { source, path: string_of(path) }
    }

    /// Creates an unsupported-feature error.
    pub fn unsupported(msg: &str) -> (r: Self)
        ensures
            r@ == ParseErrorView::Unsupported(msg@),
    {
        ParseError::Unsupported(string_of(msg))
    }

    /// The displayed form of the error. For an I/O error it is the path,
    /// `": "`, then the I/O error's own text (what its `to_string` gives).
    pub fn to_string(&self) -> (r: String)
        ensures
            !(self@ is Io) ==> r@ == error_text(self@),
            self matches ParseError::Io { source, .. } ==> exists|t: String|
                to_string_from_display_ensures::<std::io::Error>(source, t) && r@ == error_text(
                    self@,
                ) + t@,
    {
        match self {
            ParseError::Syntax { message, line } => {
                let mut s = string_of("syntax error (line ");
                push_decimal(&mut s, *line as u64);
                s.append("): ");
                s.append(message.as_str());
                s
            },
            ParseError::Semantics { message } => {
                let mut s = string_of("semantics error: ");
                s.append(message.as_str());
                s
            },
            ParseError::Io { source, path } => {
                let mut s = path.clone();
                s.append(": ");
                let t = source.to_string();
                s.append(t.as_str());
                assert(s@ == error_text(self@) + t@);
                s
            },
            ParseError::Unsupported(m) => {
                let mut s = string_of("unsupported feature: ");
                s.append(m.as_str());
                s
            },
        }
    }
}

impl ParseError {
    /// The underlying error: the I/O error of an `Io` error, none otherwise.
    pub fn source(&self) -> (r: Option<&std::io::Error>)
        ensures
            r is Some <==> self@ is Io,
            self matches ParseError::Io { source, .. } ==> r == Some(source),
    {
        match self {
            ParseError::Io { source, .. } => Some(source),
            _ => None,
        }
    }
}

/// Location in a source file.
#[derive(Debug, Clone)]
pub struct SourceLocation {
    /// 1-based line number.
    pub line: u32,
    /// 1-based column number, if known.
    pub column: Option<u32>,
    /// File path, if known.
    pub file: Option<String>,
}

} // verus!
