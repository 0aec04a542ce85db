//! Positions, spans and tokens: where the parts of a device-tree source stand.
use vstd::prelude::*;

verus! {

/// The number that stands for a file. Two numbers are equal if and only if they
/// stand for the same path; the caller hands them out.
pub type FileId = u64;

/// A position in a text document, counted from zero.
#[derive(Clone, Copy, PartialEq, Eq, Debug, Structural)]
pub struct Position {
    pub line: u32,
    pub character: u32,
}

impl Position {
    pub fn new(line: u32, character: u32) -> (r: Position)
        ensures
            r == (Position { line, character }),
    {
        Position { line, character }
    }

    /// The start of a document.
    pub fn zero() -> (r: Position)
        ensures
            r == (Position { line: 0, character: 0 }),
    {
        Position { line: 0, character: 0 }
    }

    pub fn line(&self) -> (r: u32)
        ensures
            r == self.line,
    {
        self.line
    }

    pub fn character(&self) -> (r: u32)
        ensures
            r == self.character,
    {
        self.character
    }

    /// The span from this position up to `end`.
    pub fn to(self, end: Position) -> (r: Span)
        ensures
            r == (Span { start: self, end }),
    {
        Span { start: self, end }
    }

    /// The empty span at this position.
    pub fn as_span(self) -> (r: Span)
        ensures
            r == (Span { start: self, end: self }),
    {
        Span { start: self, end: self }
    }
}

/// The part of a document between two positions.
#[derive(Clone, Copy, PartialEq, Eq, Debug, Structural)]
pub struct Span {
    pub start: Position,
    pub end: Position,
}

impl Span {
    pub fn new(start: Position, end: Position) -> (r: Span)
        ensures
            r == (Span { start, end }),
    {
        Span { start, end }
    }

    pub fn start(&self) -> (r: Position)
        ensures
            r == self.start,
    {
        self.start
    }

    pub fn end(&self) -> (r: Position)
        ensures
            r == self.end,
    {
        self.end
    }
}

/// Something that covers a part of its document.
pub trait HasSpan {
    spec fn spec_span(&self) -> Span;

    fn span(&self) -> (r: Span)
        ensures
            r == self.spec_span(),
    ;

    fn start(&self) -> (r: Position)
        ensures
            r == self.spec_span().start,
    {
        self.span().start
    }

    fn end(&self) -> (r: Position)
        ensures
            r == self.spec_span().end,
    {
        self.span().end
    }
}

/// Something that stands in a file.
pub trait HasSource {
    spec fn spec_source(&self) -> FileId;

    fn source(&self) -> (r: FileId)
        ensures
            r == self.spec_source(),
    ;
}

/// A token of a source file: the part of the file that it covers.
#[derive(Clone, Copy, PartialEq, Eq, Debug, Structural)]
pub struct Token {
    pub span: Span,
    pub source: FileId,
}

impl Token {
    pub fn new(span: Span, source: FileId) -> (r: Token)
        ensures
            r == (Token { span, source }),
    {
        Token { span, source }
    }
}

impl HasSpan for Token {
    open spec fn spec_span(&self) -> Span {
        self.span
    }

    fn span(&self) -> (r: Span) {
        self.span
    }
}

impl HasSource for Token {
    open spec fn spec_source(&self) -> FileId {
        self.source
    }

    fn source(&self) -> (r: FileId) {
        self.source
    }
}

/// How a file takes part in a device tree.
#[derive(Clone, Copy, PartialEq, Eq, Debug, Structural)]
pub enum FileType {
    DtSource,
    DtSourceInclude,
    DtSourceOverlay,
    Unknown,
}

/// Settings that the parser of a project obeys.
#[derive(Clone, Copy, PartialEq, Eq, Debug, Structural)]
pub struct ParserConfig {
    pub unlimited_property_length: bool,
}

impl Default for ParserConfig {
    fn default() -> (r: ParserConfig)
        ensures
            r == (ParserConfig { unlimited_property_length: false }),
    {
        ParserConfig { unlimited_property_length: false }
    }
}

/// Why an operation on a file failed, in words.
#[derive(Clone, PartialEq, Eq, Debug)]
pub struct IoError {
    pub message: String,
}

} // verus!
