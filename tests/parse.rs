use sstat::ast::{
    Attribute, Doc, DocNode, Identifier, LBracket, LParen, Node, Page, RBracket, RParen, Text,
};
use sstat::{ErrorKind, ParseErrorType, Parser, SourceContext, Span};

fn parser_for(input: &str) -> Parser {
    Parser::new(SourceContext::new("test".to_string(), input.to_string()))
}

#[test]
fn parse_page() {
    let input = "
			[title test]
			[author test]

			(doc [id main])


			rest
		";

    let parser = parser_for(input);
    let result = parser.parse_page();
    assert!(matches!(result, Ok(_)));

    let (rest, (page, span)) = result.unwrap();

    assert_eq!(rest, "\n\n\n\t\t\trest\n\t\t");
    assert_eq!(
        page,
        Page {
            attributes: vec![
                Attribute {
                    lbracket: LBracket { span: Span { start: 4, end: 5 } },
                    attribute_name: Identifier { name: "title", span: Span { start: 5, end: 10 } },
                    attribute_value: Text { text: "test", span: Span { start: 11, end: 15 } },
                    rbracket: RBracket { span: Span { start: 15, end: 16 } },
                    span: Span { start: 4, end: 16 }
                },
                Attribute {
                    lbracket: LBracket { span: Span { start: 20, end: 21 } },
                    attribute_name: Identifier { name: "author", span: Span { start: 21, end: 27 } },
                    attribute_value: Text { text: "test", span: Span { start: 28, end: 32 } },
                    rbracket: RBracket { span: Span { start: 32, end: 33 } },
                    span: Span { start: 16, end: 33 }
                }
            ],
            doc: DocNode {
                lparen: LParen { span: Span { start: 38, end: 39 } },
                doc: Doc { span: Span { start: 39, end: 42 } },
                attributes: vec![
                    Attribute {
                        lbracket: LBracket { span: Span { start: 43, end: 44 } },
                        attribute_name: Identifier { name: "id", span: Span { start: 44, end: 46 } },
                        attribute_value: Text { text: "main", span: Span { start: 47, end: 51 } },
                        rbracket: RBracket { span: Span { start: 51, end: 52 } },
                        span: Span { start: 43, end: 52 }
                    }
                ],
                nodes: vec![],
                rparen: RParen { span: Span { start: 52, end: 53 } },
                span: Span { start: 33, end: 53 }
            },
            span: Span { start: 0, end: 53 },
        }
    );
    assert_eq!(span, Span { start: 0, end: 53 });
}

#[test]
fn parse_attribute() {
    let input = "[example_name (lots of example values)] rest";

    let parser = parser_for(input);
    let result = parser.parse_attribute(input, 0);
    assert!(matches!(result, Ok(_)));

    let (rest, (attr, span)) = result.unwrap();

    assert_eq!(rest, " rest");
    assert_eq!(
        attr,
        Attribute {
            lbracket: LBracket { span: Span { start: 0, end: 1 } },
            attribute_name: Identifier { name: "example_name", span: Span { start: 1, end: 13 } },
            attribute_value: Text { text: "(lots of example values)", span: Span { start: 14, end: 38 } },
            rbracket: RBracket { span: Span { start: 38, end: 39 } },
            span: Span { start: 0, end: 39 },
        }
    );
    assert_eq!(span, Span { start: 0, end: 39 });
}

#[test]
fn parse_attribute_no_value() {
    let input = "[example_name] rest";

    let parser = parser_for(input);
    let result = parser.parse_attribute(input, 0);
    assert!(matches!(result, Ok(_)));

    let (rest, (attr, span)) = result.unwrap();

    assert_eq!(rest, " rest");
    assert_eq!(
        attr,
        Attribute {
            lbracket: LBracket { span: Span { start: 0, end: 1 } },
            attribute_name: Identifier { name: "example_name", span: Span { start: 1, end: 13 } },
            attribute_value: Text { text: "", span: Span { start: 13, end: 13 } },
            rbracket: RBracket { span: Span { start: 13, end: 14 } },
            span: Span { start: 0, end: 14 },
        }
    );
    assert_eq!(span, Span { start: 0, end: 14 });
}

#[test]
fn parse_doc() {
    let input = "  ;; comment
		(doc) rest";

    let parser = parser_for(input);
    let result = parser.parse_doc_node(input, 0);
    assert!(matches!(result, Ok(_)));

    let (rest, (doc, span)) = result.unwrap();

    assert_eq!(rest, " rest");
    assert_eq!(
        doc,
        DocNode {
            lparen: LParen { span: Span { start: 15, end: 16 } },
            doc: Doc { span: Span { start: 16, end: 19 } },
            attributes: vec![],
            nodes: vec![],
            rparen: RParen { span: Span { start: 19, end: 20 } },
            span: Span { start: 0, end: 20 },
        }
    );
    assert_eq!(span, Span { start: 0, end: 20 });
}

#[test]
fn page_without_indentation_leaves_trailing_text() {
    let input = "[title test]\n[author test]\n\n(doc [id main])\n\nrest";
    let parser = parser_for(input);
    let (rest, (page, span)) = parser.parse_page().unwrap();
    assert_eq!(rest, "\n\nrest");
    assert_eq!(page.attributes.len(), 2);
    assert_eq!(page.attributes[0].attribute_name.name, "title");
    assert_eq!(page.attributes[0].attribute_value.text, "test");
    assert_eq!(page.attributes[1].attribute_name.name, "author");
    assert_eq!(page.attributes[1].attribute_value.text, "test");
    assert_eq!(page.doc.attributes.len(), 1);
    assert_eq!(page.doc.attributes[0].attribute_name.name, "id");
    assert_eq!(page.doc.attributes[0].attribute_value.text, "main");
    assert!(page.doc.nodes.is_empty());
    // the consumed prefix and the remaining input make up the source again
    assert_eq!(format!("{}{}", &input[span.start..span.end], rest), input);
}

#[test]
fn attribute_alone_has_empty_value_before_bracket() {
    let input = "[example_name]";
    let parser = parser_for(input);
    let (rest, (attr, span)) = parser.parse_attribute(input, 0).unwrap();
    assert_eq!(rest, "");
    assert_eq!(attr.attribute_value, Text { text: "", span: Span { start: 13, end: 13 } });
    assert_eq!(attr.rbracket, RBracket { span: Span { start: 13, end: 14 } });
    assert_eq!(span, Span { start: 0, end: 14 });
}

#[test]
fn empty_doc_node_leaves_rest() {
    let input = "(doc) rest";
    let parser = parser_for(input);
    let (rest, (doc, span)) = parser.parse_doc_node(input, 0).unwrap();
    assert_eq!(rest, " rest");
    assert!(doc.attributes.is_empty());
    assert!(doc.nodes.is_empty());
    assert_eq!(doc.lparen, LParen { span: Span { start: 0, end: 1 } });
    assert_eq!(doc.doc, Doc { span: Span { start: 1, end: 4 } });
    assert_eq!(doc.rparen, RParen { span: Span { start: 4, end: 5 } });
    assert_eq!(span, Span { start: 0, end: 5 });
}

#[test]
fn empty_input_is_fatal_for_identifier_and_text() {
    let parser = parser_for("");
    match parser.take_identifier("", 0) {
        Err(ErrorKind::Failure(e)) => {
            assert!(matches!(e.ty, ParseErrorType::ExpectedIdentifier { .. }));
            assert_eq!(e.span, Span { start: 0, end: 0 });
        }
        other => panic!("expected a fatal error, got {:?}", other),
    }
    match parser.take_text("", 0) {
        Err(ErrorKind::Failure(e)) => {
            assert!(matches!(e.ty, ParseErrorType::UnexpectedToken { .. }));
        }
        other => panic!("expected a fatal error, got {:?}", other),
    }
}

#[test]
fn identifier_with_bad_start_is_recoverable() {
    let parser = parser_for("1abc");
    match parser.take_identifier("1abc", 0) {
        Err(ErrorKind::Error(e)) => {
            match e.ty {
                ParseErrorType::ExpectedIdentifier { found } => assert_eq!(found, "1"),
                other => panic!("unexpected error type {:?}", other),
            }
            assert_eq!(e.span, Span { start: 0, end: 1 });
        }
        other => panic!("expected a recoverable error, got {:?}", other),
    }
}

#[test]
fn identifier_takes_unicode_letters() {
    let input = "été_2 x";
    let parser = parser_for(input);
    let (rest, (name, span)) = parser.take_identifier(input, 3).unwrap();
    assert_eq!(name, "été_2");
    assert_eq!(rest, " x");
    assert_eq!(span, Span { start: 3, end: 10 });
}

#[test]
fn text_stops_at_unescaped_parenthesis() {
    let input = "a \\(b\\) c) d";
    let parser = parser_for(input);
    let (rest, (text, span)) = parser.take_text(input, 0).unwrap();
    assert_eq!(text, "a \\(b\\) c");
    assert_eq!(rest, ") d");
    assert_eq!(span, Span { start: 0, end: 9 });
    let (rest, (text, span)) = parser.take_text(") d", 9).unwrap();
    assert_eq!(text, "");
    assert_eq!(rest, ") d");
    assert_eq!(span, Span { start: 9, end: 9 });
}

#[test]
fn text_without_delimiter_takes_everything() {
    let parser = parser_for("plain words");
    let (rest, (text, span)) = parser.take_text("plain words", 0).unwrap();
    assert_eq!(text, "plain words");
    assert_eq!(rest, "");
    assert_eq!(span, Span { start: 0, end: 11 });
}

#[test]
fn tag_classifies_errors() {
    let parser = parser_for("ab");
    match parser.tag("abc", "ab", 5) {
        Err(ErrorKind::Failure(e)) => {
            match e.ty {
                ParseErrorType::UnexpectedEof { expected } => assert_eq!(expected, "abc"),
                other => panic!("unexpected error type {:?}", other),
            }
            assert_eq!(e.span, Span { start: 5, end: 7 });
        }
        other => panic!("expected a fatal error, got {:?}", other),
    }
    match parser.tag("(", "x", 2) {
        Err(ErrorKind::Error(e)) => {
            match e.ty {
                ParseErrorType::UnexpectedToken { expected, found } => {
                    assert_eq!(expected, "(");
                    assert_eq!(found, "x");
                }
                other => panic!("unexpected error type {:?}", other),
            }
            assert_eq!(e.span, Span { start: 2, end: 3 });
        }
        other => panic!("expected a recoverable error, got {:?}", other),
    }
    let (rest, (t, span)) = parser.tag("do", "doc)", 1).unwrap();
    assert_eq!(t, "do");
    assert_eq!(rest, "c)");
    assert_eq!(span, Span { start: 1, end: 3 });
}

#[test]
fn comment_needs_leading_whitespace() {
    let parser = parser_for(";; x");
    match parser.take_comment(";; x", 0) {
        Err(ErrorKind::Error(e)) => {
            assert!(matches!(e.ty, ParseErrorType::RawUnexpectedEof));
            assert_eq!(e.span, Span { start: 0, end: 0 });
        }
        other => panic!("expected a recoverable error, got {:?}", other),
    }
    let (rest, (taken, span)) = parser.take_comment("  ;; note\n(x", 0).unwrap();
    assert_eq!(taken, "  ;; note");
    assert_eq!(rest, "\n(x");
    assert_eq!(span, Span { start: 0, end: 9 });
    let (rest, (_, span)) = parser.take_non_parseable(" \n ;; a\n ;; b\n  (x", 0).unwrap();
    assert_eq!(rest, "(x");
    assert_eq!(span, Span { start: 0, end: 16 });
}

#[test]
fn repeat_counts_consecutive_attributes() {
    let input = "[a 1] [b 2]\n[c 3] (doc)";
    let parser = parser_for(input);
    let (rest, (page, _)) = parser.parse_page().unwrap();
    assert_eq!(rest, "");
    let names: Vec<&str> = page.attributes.iter().map(|a| a.attribute_name.name).collect();
    assert_eq!(names, vec!["a", "b", "c"]);
    let values: Vec<&str> = page.attributes.iter().map(|a| a.attribute_value.text).collect();
    assert_eq!(values, vec!["1", "2", "3"]);
}

#[test]
fn nested_nodes_keep_their_order() {
    let input = "(doc (p hello) (sec [k v] (title T) tail))";
    let parser = parser_for(input);
    let page = parser.parse().unwrap();
    let nodes = &page.doc.nodes;
    assert_eq!(nodes.len(), 2);
    match &nodes[0] {
        Node::P { inner, span, .. } => {
            assert_eq!(*span, Span { start: 5, end: 14 });
            assert_eq!(inner.len(), 1);
            assert_eq!(inner[0], Node::Text { inner: Text { text: "hello", span: Span { start: 8, end: 13 } } });
        }
        other => panic!("expected a paragraph, got {:?}", other),
    }
    match &nodes[1] {
        Node::Sec { attributes, inner, rparen, .. } => {
            assert_eq!(attributes.len(), 1);
            assert_eq!(attributes[0].attribute_name.name, "k");
            assert_eq!(inner.len(), 2);
            assert!(matches!(inner[0], Node::Title { .. }));
            assert!(matches!(inner[1], Node::Text { inner: Text { text: "tail", .. } }));
            assert_eq!(*rparen, RParen { span: Span { start: 40, end: 41 } });
        }
        other => panic!("expected a section, got {:?}", other),
    }
    assert_eq!(page.span, Span { start: 0, end: 42 });
}

#[test]
fn unknown_node_kind_is_fatal() {
    let input = "(foo x)";
    let parser = parser_for(input);
    match parser.parse_node(input, 0) {
        Err(ErrorKind::Failure(e)) => {
            match e.ty {
                ParseErrorType::UnknownNodeKind { found } => assert_eq!(found, "foo"),
                other => panic!("unexpected error type {:?}", other),
            }
            assert_eq!(e.span, Span { start: 1, end: 4 });
        }
        other => panic!("expected a fatal error, got {:?}", other),
    }
}

#[test]
fn missing_close_after_keyword_is_fatal() {
    let input = "(doc [a b]";
    let parser = parser_for(input);
    match parser.parse_doc_node(input, 0) {
        Err(ErrorKind::Failure(e)) => {
            assert!(matches!(e.ty, ParseErrorType::UnexpectedEof { .. }));
            assert_eq!(e.span, Span { start: 10, end: 10 });
        }
        other => panic!("expected a fatal error, got {:?}", other),
    }
    match parser.parse_doc_node("x", 0) {
        Err(ErrorKind::Error(_)) => {}
        other => panic!("expected a recoverable error, got {:?}", other),
    }
}

#[test]
fn parse_reports_error_with_context_source() {
    let input = "[a b]\n(doc (p x)";
    let parser = parser_for(input);
    let e = parser.parse().unwrap_err();
    assert!(matches!(e.ty, ParseErrorType::UnexpectedEof { .. }));
    assert_eq!(e.source.source(), input);
    assert_eq!(e.source.name(), "test");
    assert_eq!(e.context, vec!["while parsing the document node".to_string()]);
    assert!(e.span.end <= input.len());
    let report = e.render().unwrap();
    assert!(report.contains("unexpected end-of-file"));
    assert!(report.contains("test"));
    assert!(report.contains("while parsing the document node"));
}

#[test]
fn transpile_succeeds_and_fails() {
    assert!(sstat::transpile("a".to_string(), "(doc hi)".to_string()).is_ok());
    match sstat::transpile("a".to_string(), "(doc (nope))".to_string()) {
        Err(sstat::Error::ParseError(e)) => {
            assert!(matches!(e.ty, ParseErrorType::UnexpectedToken { .. }));
        }
        other => panic!("expected a parse error, got {:?}", other),
    }
}

#[test]
fn trees_and_errors_can_be_copied() {
    let input = "(doc (sec [k v] (p a) b))";
    let parser = parser_for(input);
    let page = parser.parse().unwrap();
    let copy = page.clone();
    assert_eq!(copy, page);
    assert_eq!(page.doc.nodes[0].clone(), page.doc.nodes[0]);
    let e = parser.parse_node("(x)", 0).unwrap_err();
    let e = match e {
        ErrorKind::Failure(e) => e,
        ErrorKind::Error(e) => e,
    };
    let c = e.clone();
    assert_eq!(c.span, e.span);
    assert_eq!(c.source.source(), input);
}

#[test]
fn regular_node_commits_after_its_parenthesis() {
    let parser = parser_for("1)");
    match parser.parse_regular_node_start(LParen { span: Span { start: 0, end: 1 } }, 0, "1)", 1) {
        Err(ErrorKind::Failure(e)) => {
            assert!(matches!(e.ty, ParseErrorType::ExpectedIdentifier { .. }));
            assert_eq!(e.span, Span { start: 1, end: 2 });
        }
        other => panic!("expected a fatal error, got {:?}", other),
    }
    match parser.parse_regular_node_start(LParen { span: Span { start: 0, end: 1 } }, 0, "p x", 1) {
        Err(ErrorKind::Failure(e)) => {
            assert!(matches!(e.ty, ParseErrorType::UnexpectedEof { .. }));
            assert_eq!(e.span, Span { start: 4, end: 4 });
        }
        other => panic!("expected a fatal error, got {:?}", other),
    }
}

#[test]
fn committed_failures_name_their_production() {
    let parser = parser_for("[1]");
    match parser.parse_attribute("[1]", 0) {
        Err(ErrorKind::Failure(e)) => {
            assert_eq!(e.context, vec!["while parsing an attribute".to_string()]);
        }
        other => panic!("expected a fatal error, got {:?}", other),
    }
    match parser.parse_attribute("x", 0) {
        Err(ErrorKind::Error(e)) => assert!(e.context.is_empty()),
        other => panic!("expected a recoverable error, got {:?}", other),
    }
    match parser.parse_node("(foo)", 0) {
        Err(ErrorKind::Failure(e)) => {
            assert_eq!(e.context, vec!["while parsing a node".to_string()]);
        }
        other => panic!("expected a fatal error, got {:?}", other),
    }
    match parser.parse_doc_node("(sec)", 0) {
        Err(ErrorKind::Failure(e)) => {
            assert_eq!(e.context, vec!["while parsing the document node".to_string()]);
        }
        other => panic!("expected a fatal error, got {:?}", other),
    }
}
