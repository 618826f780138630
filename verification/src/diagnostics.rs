//! Structured diagnostics.

use vstd::prelude::*;

use crate::text::{otext, texts, TextRange};

verus! {

/// How bad a diagnostic is.
#[derive(Clone, Copy, Debug, PartialEq, Eq, Structural)]
pub enum Severity {
    Error,
    Warning,
    Note,
}

/// A diagnostic code: a letter for the family and a number.
#[derive(Clone, Copy, Debug, PartialEq, Eq)]
pub struct DiagnosticCode {
    pub prefix: &'static str,
    pub number: u16,
}

/// A secondary location with an optional label.
#[derive(Debug, PartialEq, Eq)]
pub struct LabeledSpan {
    pub span: TextRange,
    pub label: Option<String>,
}

/// A message about a place in a source text.
#[derive(Debug, PartialEq, Eq)]
pub struct Diagnostic {
    pub severity: Severity,
    pub code: DiagnosticCode,
    pub message: String,
    pub primary_span: TextRange,
    pub secondary_spans: Vec<LabeledSpan>,
    pub notes: Vec<String>,
}

/// The value of a [`LabeledSpan`].
pub struct SpanView {
    pub span: TextRange,
    pub label: Option<Seq<char>>,
}

/// The value of a [`Diagnostic`].
pub struct DiagView {
    pub severity: Severity,
    pub prefix: Seq<char>,
    pub number: u16,
    pub message: Seq<char>,
    pub primary_span: TextRange,
    pub secondary_spans: Seq<SpanView>,
    pub notes: Seq<Seq<char>>,
}

impl View for LabeledSpan {
    type V = SpanView;

    open spec fn view(&self) -> SpanView {
        SpanView { span: self.span, label: otext(self.label) }
    }
}

impl View for Diagnostic {
    type V = DiagView;

    open spec fn view(&self) -> DiagView {
        DiagView {
            severity: self.severity,
            prefix: self.code.prefix@,
            number: self.code.number,
            message: self.message@,
            primary_span: self.primary_span,
            secondary_spans: self.secondary_spans@.map_values(|x: LabeledSpan| x@),
            notes: texts(self.notes@),
        }
    }
}

/// The values of a list of diagnostics.
pub open spec fn diags_view(s: Seq<Diagnostic>) -> Seq<DiagView> {
    s.map_values(|d: Diagnostic| d@)
}

/// An error or warning without secondary spans or notes.
pub open spec fn plain_diag(
    severity: Severity,
    prefix: Seq<char>,
    number: u16,
    message: Seq<char>,
    span: TextRange,
) -> DiagView {
    DiagView {
        severity,
        prefix,
        number,
        message,
        primary_span: span,
        secondary_spans: Seq::empty(),
        notes: Seq::empty(),
    }
}

impl DiagnosticCode {
    pub fn new(prefix: &'static str, number: u16) -> (r: DiagnosticCode)
        ensures
            r.prefix@ == prefix@,
            r.number == number,
    {
        DiagnosticCode { prefix, number }
    }
}

impl Diagnostic {
    /// An error at `span`.
    pub fn error(code: DiagnosticCode, message: String, span: TextRange) -> (r: Diagnostic)
        ensures
            r@ == plain_diag(Severity::Error, code.prefix@, code.number, message@, span),
    {
        let r = Diagnostic {
            severity: Severity::Error,
            code,
            message,
            primary_span: span,
            secondary_spans: Vec::new(),
            notes: Vec::new(),
        };
        assert(r@.secondary_spans =~= Seq::empty());
        assert(r@.notes =~= Seq::empty());
        r
    }

    /// A warning at `span`.
    pub fn warning(code: DiagnosticCode, message: String, span: TextRange) -> (r: Diagnostic)
        ensures
            r@ == plain_diag(Severity::Warning, code.prefix@, code.number, message@, span),
    {
        let r = Diagnostic {
            severity: Severity::Warning,
            code,
            message,
            primary_span: span,
            secondary_spans: Vec::new(),
            notes: Vec::new(),
        };
        assert(r@.secondary_spans =~= Seq::empty());
        assert(r@.notes =~= Seq::empty());
        r
    }

    /// Adds a secondary span with a label.
    pub fn add_secondary(&mut self, span: TextRange, label: String)
        ensures
            final(self)@ == (DiagView {
                secondary_spans: old(self)@.secondary_spans.push(
                    SpanView { span, label: Some(label@) },
                ),
                ..old(self)@
            }),
    {
        let ghost before = self@;
        self.secondary_spans.push(LabeledSpan { span, label: Some(label) });
        assert(self@.secondary_spans =~= before.secondary_spans.push(
            SpanView { span, label: Some(label@) },
        ));
    }
}

} // verus!
