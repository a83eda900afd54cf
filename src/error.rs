//! Parse errors, their classification, and their rendering as annotated
//! source.

use codespan_reporting::diagnostic::{Diagnostic, Label};
use vstd::prelude::*;
use vstd::string::*;

use crate::location::Span;
use crate::source::SourceContext;
use crate::text::blen;

verus! {

#[verifier::external_type_specification]
#[verifier::external_body]
pub struct ExIoError(std::io::Error);

/// Any error produced during transpilation
#[derive(Debug)]
pub enum Error {
    /// Wrapper around [`std::io::Error`]
    Io(std::io::Error),
    /// Wrapper around [`ParseError`]
    ParseError(ParseError),
}

impl From<std::io::Error> for Error {
    fn from(value: std::io::Error) -> (r: Error)
        ensures
            r == Error::Io(value),
    {
        Error::Io(value)
    }
}

impl vstd::std_specs::convert::FromSpecImpl<std::io::Error> for Error {
    open spec fn obeys_from_spec() -> bool {
        true
    }

    open spec fn from_spec(v: std::io::Error) -> Error {
        Error::Io(v)
    }
}

impl From<ParseError> for Error {
    fn from(value: ParseError) -> (r: Error)
        ensures
            r == Error::ParseError(value),
    {
        Error::ParseError(value)
    }
}

impl vstd::std_specs::convert::FromSpecImpl<ParseError> for Error {
    open spec fn obeys_from_spec() -> bool {
        true
    }

    open spec fn from_spec(v: ParseError) -> Error {
        Error::ParseError(v)
    }
}

/// All possible types of error encountered during parsing
#[derive(Clone, Debug)]
pub enum ParseErrorType {
    /// Unexpected end-of-file
    RawUnexpectedEof,
    /// Unexpected end-of-file where `expected` should have come
    UnexpectedEof { expected: String },
    /// Unexpected token: `found` where `expected` should have come
    UnexpectedToken { expected: String, found: String },
    /// Expected an identifier, found something else
    ExpectedIdentifier { found: String },
    /// A node keyword that names no node kind
    UnknownNodeKind { found: String },
}

/// The mathematical value of a [`ParseErrorType`].
pub enum ErrorTypeView {
    RawUnexpectedEof,
    UnexpectedEof { expected: Seq<char> },
    UnexpectedToken { expected: Seq<char>, found: Seq<char> },
    ExpectedIdentifier { found: Seq<char> },
    UnknownNodeKind { found: Seq<char> },
}

impl View for ParseErrorType {
    type V = ErrorTypeView;

    open spec fn view(&self) -> ErrorTypeView {
        match self {
            ParseErrorType::RawUnexpectedEof => ErrorTypeView::RawUnexpectedEof,
            ParseErrorType::UnexpectedEof { expected } => ErrorTypeView::UnexpectedEof {
                expected: expected@,
            },
            ParseErrorType::UnexpectedToken { expected, found } => ErrorTypeView::UnexpectedToken {
                expected: expected@,
                found: found@,
            },
            ParseErrorType::ExpectedIdentifier { found } => ErrorTypeView::ExpectedIdentifier {
                found: found@,
            },
            ParseErrorType::UnknownNodeKind { found } => ErrorTypeView::UnknownNodeKind {
                found: found@,
            },
        }
    }
}

/// The one-line summary of an error of type `t`.
pub open spec fn message_of(t: ErrorTypeView) -> Seq<char> {
    match t {
        ErrorTypeView::RawUnexpectedEof => "unexpected end-of-file"@,
        ErrorTypeView::UnexpectedEof { .. } => "unexpected end-of-file"@,
        ErrorTypeView::UnexpectedToken { .. } => "unexpected token"@,
        ErrorTypeView::ExpectedIdentifier { .. } => "expected identifier"@,
        ErrorTypeView::UnknownNodeKind { .. } => "unknown node kind"@,
    }
}

/// The text that labels the offending source of an error of type `t`.
pub open spec fn label_of(t: ErrorTypeView) -> Seq<char> {
    match t {
        ErrorTypeView::RawUnexpectedEof => "unexpected end-of-file"@,
        ErrorTypeView::UnexpectedEof { expected } => "unexpected end-of-file, expected '"@
            + expected + "'"@,
        ErrorTypeView::UnexpectedToken { expected, found } => "unexpected token '"@ + found
            + "', expected '"@ + expected + "'"@,
        ErrorTypeView::ExpectedIdentifier { found } => "expected IDENTIFIER, found '"@ + found
            + "'"@,
        ErrorTypeView::UnknownNodeKind { found } => "unknown node kind '"@ + found + "'"@,
    }
}

impl ParseErrorType {
    /// The one-line summary of this error.
    pub fn message(&self) -> (r: String)
        ensures
            r@ == message_of(self@),
    {
        match self {
            ParseErrorType::RawUnexpectedEof => String::from_str("unexpected end-of-file"),
            ParseErrorType::UnexpectedEof { .. } => String::from_str("unexpected end-of-file"),
            ParseErrorType::UnexpectedToken { .. } => String::from_str("unexpected token"),
            ParseErrorType::ExpectedIdentifier { .. } => String::from_str("expected identifier"),
            ParseErrorType::UnknownNodeKind { .. } => String::from_str("unknown node kind"),
        }
    }

    /// The text that labels the offending source.
    pub fn label(&self) -> (r: String)
        ensures
            r@ == label_of(self@),
    {
        match self {
            ParseErrorType::RawUnexpectedEof => String::from_str("unexpected end-of-file"),
            ParseErrorType::UnexpectedEof { expected } => {
                let mut s = String::from_str("unexpected end-of-file, expected '");
                s.append(expected.as_str());
                s.append("'");
                s
            },
            ParseErrorType::UnexpectedToken { expected, found } => {
                let mut s = String::from_str("unexpected token '");
                s.append(found.as_str());
                s.append("', expected '");
                s.append(expected.as_str());
                s.append("'");
                s
            },
            ParseErrorType::ExpectedIdentifier { found } => {
                let mut s = String::from_str("expected IDENTIFIER, found '");
                s.append(found.as_str());
                s.append("'");
                s
            },
            ParseErrorType::UnknownNodeKind { found } => {
                let mut s = String::from_str("unknown node kind '");
                s.append(found.as_str());
                s.append("'");
                s
            },
        }
    }
}

/// Any error related to parsing
#[derive(Clone, Debug)]
pub struct ParseError {
    /// The source of the error
    pub source: Box<SourceContext>,
    /// The location of the error
    pub span: Span,
    /// The type of error
    pub ty: ParseErrorType,
    /// Any additional context about the error
    pub context: Vec<String>,
}

/// The annotated-source report that codespan-reporting renders for a file
/// `name` with text `source`, an error summary `message`, a primary label
/// `label` on the bytes `[start, end)`, and `notes`; `None` where it reports
/// a failure.
pub uninterp spec fn report_of(
    name: Seq<char>,
    source: Seq<char>,
    start: int,
    end: int,
    message: Seq<char>,
    label: Seq<char>,
    notes: Seq<Seq<char>>,
) -> Option<Seq<char>>;

/// Relies on `codespan_reporting::term::emit` (default configuration, ANSI
/// colours) to render one error diagnostic into a string.
#[verifier::external_body]
fn emit_report(
    name: &str,
    source: &str,
    span: Span,
    message: String,
    label: String,
    notes: &Vec<String>,
) -> (r: Option<String>)
    requires
        span.start <= span.end <= blen(source@),
    ensures
        r matches Some(t) ==> report_of(name@, source@, span.start as int, span.end as int, message@, label@, notes@.map_values(|n: String| n@)) == Some(t@),
        r is None ==> report_of(name@, source@, span.start as int, span.end as int, message@, label@, notes@.map_values(|n: String| n@)) is None,
{
    let file = codespan_reporting::files::SimpleFile::new(name, source);
    let diagnostic = Diagnostic::error().with_message(message).with_labels(
        vec![Label::primary((), span.start..span.end).with_message(label)],
    ).with_notes(notes.clone());
    let mut buffer = Vec::new();
    let mut writer = codespan_reporting::term::termcolor::Ansi::new(&mut buffer);
    let config = codespan_reporting::term::Config::default();
    codespan_reporting::term::emit(&mut writer, &config, &file, &diagnostic).ok()?;
    String::from_utf8(buffer).ok()
}

impl ParseError {
    /// Create a new error
    pub fn new(source: SourceContext, span: Span, ty: ParseErrorType) -> (r: ParseError)
        ensures
            *r.source == source,
            r.span == span,
            r.ty == ty,
            r.context@ == Seq::<String>::empty(),
    {
        ParseError { source: Box::new(source), span, ty, context: Vec::new() }
    }

    /// Add context to the error
    pub fn add_context(self, ctx: String) -> (r: ParseError)
        ensures
            r.source == self.source,
            r.span == self.span,
            r.ty == self.ty,
            r.context@ == self.context@.push(ctx),
    {
        let mut r = self;
        r.context.push(ctx);
        r
    }

    /// The annotated-source report of this error: a one-line summary, the
    /// offending source with its label, and the context notes.
    pub fn render(&self) -> (r: Option<String>)
        requires
            self.span.start <= self.span.end <= (*self.source).spec_len(),
        ensures
            r matches Some(t) ==> report_of(
                self.source.spec_name(),
                self.source.text(),
                self.span.start as int,
                self.span.end as int,
                message_of(self.ty@),
                label_of(self.ty@),
                self.context@.map_values(|n: String| n@),
            ) == Some(t@),
            r is None ==> report_of(
                self.source.spec_name(),
                self.source.text(),
                self.span.start as int,
                self.span.end as int,
                message_of(self.ty@),
                label_of(self.ty@),
                self.context@.map_values(|n: String| n@),
            ) is None,
    {
        emit_report(
            self.source.name(),
            self.source.source(),
            self.span,
            self.ty.message(),
            self.ty.label(),
            &self.context,
        )
    }
}

} // verus!
