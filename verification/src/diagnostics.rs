//! Diagnostics (errors and warnings) produced by the frontend.
use vstd::prelude::*;
use crate::ast::Span;

verus! {

/// How serious a diagnostic is.
#[derive(Debug, Clone, Copy, PartialEq, Eq, Structural)]
pub enum Severity {
    Error,
    Warning,
}

/// A message attached to a region of the source.
#[derive(Debug, Clone, PartialEq)]
pub struct Diagnostic {
    pub severity: Severity,
    pub message: String,
    pub span: Span,
}

/// The mathematical content of a [`Diagnostic`].
pub struct DiagV {
    pub severity: Severity,
    pub message: Seq<char>,
    pub span: Span,
}

impl View for Diagnostic {
    type V = DiagV;

    open spec fn view(&self) -> DiagV {
        DiagV { severity: self.severity, message: self.message@, span: self.span }
    }
}

/// The view of an error diagnostic with the given message.
pub open spec fn error_v(message: Seq<char>, span: Span) -> DiagV {
    DiagV { severity: Severity::Error, message, span }
}

impl Diagnostic {
    /// An error raised while lexing.
    pub fn lex_error(message: &str, span: Span) -> (d: Diagnostic)
        ensures
            d@ == error_v(message@, span),
    {
        Diagnostic { severity: Severity::Error, message: String::from_str(message), span }
    }

    /// An error raised while parsing.
    pub fn parse_error(message: &str, span: Span) -> (d: Diagnostic)
        ensures
            d@ == error_v(message@, span),
    {
        Diagnostic { severity: Severity::Error, message: String::from_str(message), span }
    }

    /// A warning.
    pub fn warning(message: &str, span: Span) -> (d: Diagnostic)
        ensures
            d@ == (DiagV { severity: Severity::Warning, message: message@, span }),
    {
        Diagnostic { severity: Severity::Warning, message: String::from_str(message), span }
    }

    /// Whether this diagnostic is an error.
    pub fn is_error(&self) -> (b: bool)
        ensures
            b == (self.severity == Severity::Error),
    {
        self.severity == Severity::Error
    }
}

} // verus!
