//! Findings about source files.
use crate::data::{FileId, HasSource, HasSpan, IoError, Span, Token};
use crate::error_codes::{ErrorCode, Severity, SeverityMap};
use crate::import_guard::CyclicDependency;
use vstd::prelude::*;

verus! {

/// A finding: what is wrong, and where.
#[derive(PartialEq, Eq, Debug)]
pub struct Diagnostic {
    pub span: Span,
    pub source: FileId,
    pub kind: ErrorCode,
    pub message: String,
}

/// A finding with its message as mathematical text.
pub struct DiagnosticView {
    pub span: Span,
    pub source: FileId,
    pub kind: ErrorCode,
    pub message: Seq<char>,
}

impl View for Diagnostic {
    type V = DiagnosticView;

    open spec fn view(&self) -> DiagnosticView {
        DiagnosticView {
            span: self.span,
            source: self.source,
            kind: self.kind,
            message: self.message@,
        }
    }
}

impl Clone for Diagnostic {
    fn clone(&self) -> (r: Diagnostic)
        ensures
            r@ == self@,
    {
        Diagnostic {
            span: self.span,
            source: self.source,
            kind: self.kind,
            message: self.message.clone(),
        }
    }
}

/// Findings with their messages as mathematical text.
pub open spec fn diagnostics_view(diagnostics: Seq<Diagnostic>) -> Seq<DiagnosticView> {
    diagnostics.map_values(|diagnostic: Diagnostic| diagnostic@)
}

/// The finding that a file could not be read.
pub open spec fn io_error_view(span: Span, source: FileId, message: Seq<char>) -> DiagnosticView {
    DiagnosticView { span, source, kind: ErrorCode::IOError, message }
}

/// The finding that files import each other in a circle.
pub open spec fn cyclic_dependency_view(span: Span, source: FileId) -> DiagnosticView {
    DiagnosticView {
        span,
        source,
        kind: ErrorCode::CyclicDependencyError,
        message: "Cyclic dependency between files"@,
    }
}

impl HasSpan for Diagnostic {
    open spec fn spec_span(&self) -> Span {
        self.span
    }

    fn span(&self) -> (r: Span) {
        self.span
    }
}

impl HasSource for Diagnostic {
    open spec fn spec_source(&self) -> FileId {
        self.source
    }

    fn source(&self) -> (r: FileId) {
        self.source
    }
}

impl Diagnostic {
    pub fn new(span: Span, source: FileId, kind: ErrorCode, message: &str) -> (r: Diagnostic)
        ensures
            r@ == (DiagnosticView { span, source, kind, message: message@ }),
    {
        Diagnostic { span, source, kind, message: message.to_owned() }
    }

    /// A finding about a token.
    pub fn from_token(token: Token, kind: ErrorCode, message: &str) -> (r: Diagnostic)
        ensures
            r@ == (DiagnosticView {
                span: token.span,
                source: token.source,
                kind,
                message: message@,
            }),
    {
        Diagnostic::new(token.span, token.source, kind, message)
    }

    /// The finding that a file could not be read.
    pub fn io_error(span: Span, source: FileId, err: &IoError) -> (r: Diagnostic)
        ensures
            r@ == io_error_view(span, source, err.message@),
    {
        Diagnostic { span, source, kind: ErrorCode::IOError, message: err.message.clone() }
    }

    /// The finding that files import each other in a circle.
    pub fn cyclic_dependency_error(
        span: Span,
        source: FileId,
        _err: CyclicDependency,
    ) -> (r: Diagnostic)
        ensures
            r@ == cyclic_dependency_view(span, source),
    {
        Diagnostic::new(
            span,
            source,
            ErrorCode::CyclicDependencyError,
            "Cyclic dependency between files",
        )
    }

    pub fn kind(&self) -> (r: &ErrorCode)
        ensures
            *r == self.kind,
    {
        &self.kind
    }

    /// How serious this finding is, by the severities of its kind.
    pub fn severity(&self, severity_map: &SeverityMap) -> (r: Severity)
        ensures
            r == severity_map.severity(self.kind),
    {
        severity_map[self.kind]
    }
}

} // verus!
