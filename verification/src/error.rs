//! Parse errors: what went wrong, where, and the source line around it.
use vstd::prelude::*;

verus! {

/// What the parser found wrong.
#[derive(Clone, Debug)]
pub enum ParseErrorKind {
    /// An identifier was required at the position.
    ExpectedIdentifier,
    /// The byte `expected` was required; `found` is what stood there
    /// (`None` at the end of the input).
    ExpectedByte { expected: u8, found: Option<u8> },
    /// No expression can start with `found`.
    Unexpected { found: Option<u8> },
    /// `.name` after an expression, where `name` is no component name.
    UnknownField(String),
    /// `include`/`use` not followed by `<path>` or `"path"`.
    ExpectedIncludePath,
    /// The keyword was required at the position.
    ExpectedKeyword(String),
    /// A numeral that is no valid floating-point literal.
    InvalidNumber(String),
}

/// Where an error was found: 1-based line and column (in bytes), and the
/// text of that line.
#[derive(Clone, Debug)]
pub struct Location {
    pub line: usize,
    pub column: usize,
    pub snippet: String,
}

#[derive(Clone, Debug)]
pub struct ParseError {
    pub kind: ParseErrorKind,
    /// Byte offset in the source at which the error was found.
    pub pos: usize,
    /// The location, for errors that report one.
    pub location: Option<Location>,
}

pub enum KindV {
    ExpectedIdentifier,
    ExpectedByte { expected: u8, found: Option<u8> },
    Unexpected { found: Option<u8> },
    UnknownField(Seq<char>),
    ExpectedIncludePath,
    ExpectedKeyword(Seq<char>),
    InvalidNumber(Seq<char>),
}

pub struct LocationV {
    pub line: nat,
    pub column: nat,
    pub snippet: Seq<char>,
}

pub struct ErrorV {
    pub kind: KindV,
    pub pos: nat,
    pub location: Option<LocationV>,
}

impl ParseErrorKind {
    pub open spec fn view_kind(&self) -> KindV {
        match self {
            ParseErrorKind::ExpectedIdentifier => KindV::ExpectedIdentifier,
            ParseErrorKind::ExpectedByte { expected, found } => KindV::ExpectedByte {
                expected: *expected,
                found: *found,
            },
            ParseErrorKind::Unexpected { found } => KindV::Unexpected { found: *found },
            ParseErrorKind::UnknownField(t) => KindV::UnknownField(t@),
            ParseErrorKind::ExpectedIncludePath => KindV::ExpectedIncludePath,
            ParseErrorKind::ExpectedKeyword(t) => KindV::ExpectedKeyword(t@),
            ParseErrorKind::InvalidNumber(t) => KindV::InvalidNumber(t@),
        }
    }
}

impl Location {
    pub open spec fn view_location(&self) -> LocationV {
        LocationV { line: self.line as nat, column: self.column as nat, snippet: self.snippet@ }
    }
}

impl ParseError {
    pub open spec fn view_error(&self) -> ErrorV {
        ErrorV {
            kind: self.kind.view_kind(),
            pos: self.pos as nat,
            location: match &self.location {
                Some(l) => Some(l.view_location()),
                None => None,
            },
        }
    }
}

} // verus!
