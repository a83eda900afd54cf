use sstat::{LineCol, ParseError, ParseErrorType, SourceContext, Span};

#[test]
fn origin_resolves_to_first_line() {
    let ctx = SourceContext::new("f".to_string(), "abc\ndef".to_string());
    let loc = Span::new(0, 0).resolve(&ctx);
    assert_eq!(loc.start, LineCol { line: 1, column: 0 });
    assert_eq!(loc.end, LineCol { line: 1, column: 0 });
    assert_eq!(loc.lines, vec!["abc".to_string()]);
}

#[test]
fn resolve_finds_lines_and_columns() {
    let ctx = SourceContext::new("f".to_string(), "ab\ncde\n\nfg".to_string());
    assert_eq!(ctx.line_col(3), LineCol { line: 2, column: 0 });
    assert_eq!(ctx.line_col(5), LineCol { line: 2, column: 2 });
    assert_eq!(ctx.line_col(7), LineCol { line: 3, column: 0 });
    assert_eq!(ctx.line_col(8), LineCol { line: 4, column: 0 });
    assert_eq!(ctx.line_col(10), LineCol { line: 4, column: 2 });
    let loc = Span::new(1, 9).resolve(&ctx);
    assert_eq!(loc.start, LineCol { line: 1, column: 1 });
    assert_eq!(loc.end, LineCol { line: 4, column: 1 });
    assert_eq!(loc.lines, vec!["ab".to_string(), "cde".to_string(), "".to_string(), "fg".to_string()]);
    assert_eq!(loc.span, Span { start: 1, end: 9 });
    assert_eq!(loc.file_path, std::path::PathBuf::from("f"));
}

#[test]
fn messages_and_labels() {
    let t = ParseErrorType::UnexpectedToken { expected: "(".to_string(), found: "x".to_string() };
    assert_eq!(t.message(), "unexpected token");
    assert_eq!(t.label(), "unexpected token 'x', expected '('");
    let t = ParseErrorType::UnexpectedEof { expected: ")".to_string() };
    assert_eq!(t.message(), "unexpected end-of-file");
    assert_eq!(t.label(), "unexpected end-of-file, expected ')'");
    let t = ParseErrorType::ExpectedIdentifier { found: "1".to_string() };
    assert_eq!(t.message(), "expected identifier");
    assert_eq!(t.label(), "expected IDENTIFIER, found '1'");
    let t = ParseErrorType::RawUnexpectedEof;
    assert_eq!(t.message(), "unexpected end-of-file");
    assert_eq!(t.label(), "unexpected end-of-file");
    let t = ParseErrorType::UnknownNodeKind { found: "foo".to_string() };
    assert_eq!(t.message(), "unknown node kind");
    assert_eq!(t.label(), "unknown node kind 'foo'");
}

#[test]
fn context_notes_accumulate_and_render() {
    let ctx = SourceContext::new("page.ss".to_string(), "(doc x".to_string());
    let e = ParseError::new(ctx, Span::new(6, 6), ParseErrorType::UnexpectedEof { expected: ")".to_string() });
    assert!(e.context.is_empty());
    let e = e.add_context("while parsing the document node".to_string());
    let e = e.add_context("while parsing the page".to_string());
    assert_eq!(e.context, vec!["while parsing the document node".to_string(), "while parsing the page".to_string()]);
    let report = e.render().unwrap();
    assert!(report.contains("unexpected end-of-file, expected ')'"));
    assert!(report.contains("page.ss"));
    assert!(report.contains("while parsing the page"));
    assert!(report.contains("(doc x"));
}

#[test]
fn errors_convert_into_the_crate_error() {
    let ctx = SourceContext::new("f".to_string(), "x".to_string());
    let e: sstat::Error = ParseError::new(ctx, Span::new(0, 1), ParseErrorType::RawUnexpectedEof).into();
    assert!(matches!(e, sstat::Error::ParseError(ParseError { span: Span { start: 0, end: 1 }, .. })));
    let io = std::io::Error::new(std::io::ErrorKind::NotFound, "missing");
    let e: sstat::Error = io.into();
    assert!(matches!(e, sstat::Error::Io(_)));
}
