use litx::{
    evaluate_command, lex, parse, sanitize, Ast, Error, Expression, FileSet, Node, TextSpan,
    Token,
};

fn parse_source(source: &[u8]) -> Result<Ast, Error> {
    let tokens = lex(source)?;
    parse(&tokens)
}

#[test]
fn merge_is_commutative_on_samples() {
    let a = TextSpan { low: 3, high: 9 };
    let b = TextSpan { low: 1, high: 4 };
    assert_eq!(TextSpan::merge(a, b), TextSpan::merge(b, a));
    assert_eq!(TextSpan::merge(a, b), TextSpan { low: 1, high: 9 });
}

#[test]
fn merge_is_associative_on_samples() {
    let a = TextSpan { low: 0, high: 2 };
    let b = TextSpan { low: 5, high: 7 };
    let c = TextSpan { low: 3, high: 4 };
    assert_eq!(
        TextSpan::merge(TextSpan::merge(a, b), c),
        TextSpan::merge(a, TextSpan::merge(b, c))
    );
}

#[test]
fn merge_of_span_with_itself() {
    let s = TextSpan { low: 4, high: 11 };
    assert_eq!(TextSpan::merge(s, s), s);
}

#[test]
fn span_from_slices() {
    let source = b"hello world";
    let span = TextSpan::from(source, &source[5..], &source[0..5]);
    assert_eq!(span, TextSpan { low: 0, high: 5 });
}

#[test]
fn token_contents() {
    assert_eq!(
        Token::Word(b"abc".to_vec()).contents(),
        Some(&b"abc".to_vec())
    );
    assert_eq!(Token::Open.contents(), None);
}

#[test]
fn key_then_word_then_property() {
    let tokens = lex(b"::Key Value").unwrap();
    assert_eq!(tokens.len(), 2);
    assert_eq!(tokens[0].0, Token::Key(b"Key".to_vec()));
    assert_eq!(tokens[1].0, Token::Word(b"Value".to_vec()));

    let ast = parse_source(b"[{::key val}]").unwrap();
    assert_eq!(ast.repr.len(), 1);
    match &ast.repr[0] {
        Node::Expression(_, e) => {
            assert_eq!(e.repr.len(), 1);
            match &e.repr[0] {
                Node::Property(_, key, value) => {
                    assert_eq!(key, &b"key".to_vec());
                    match &**value {
                        Node::Text(_, v) => assert_eq!(v, &b"val".to_vec()),
                        other => panic!("expected text value, got {:?}", other),
                    }
                }
                other => panic!("expected property, got {:?}", other),
            }
        }
        other => panic!("expected expression, got {:?}", other),
    }
}

#[test]
fn unmatched_open_is_parse_failure() {
    match parse_source(b"[{ foo") {
        Err(Error::ParseFailure(_)) => {}
        other => panic!("expected parse failure, got {:?}", other),
    }
}

#[test]
fn unterminated_quote_is_lex_failure() {
    assert_eq!(lex(b"''foo"), Err(Error::LexFailure));
}

#[test]
fn dangling_key_is_parse_failure() {
    match parse_source(b"[{::key }]") {
        Err(Error::ParseFailure(Some((token, _)))) => assert_eq!(token, Token::Close),
        other => panic!("expected parse failure at the close, got {:?}", other),
    }
}

#[test]
fn stray_close_ends_parsing_silently() {
    let ast = parse_source(b"foo }] bar").unwrap();
    assert_eq!(
        ast,
        Ast {
            repr: vec![Node::Text(TextSpan { low: 0, high: 3 }, b"foo".to_vec())],
        }
    );
}

#[test]
fn comments_are_dropped_by_the_parser() {
    let ast = parse_source(b"[{ a\n// note\nb }]").unwrap();
    match &ast.repr[0] {
        Node::Expression(_, e) => {
            assert_eq!(e.repr.len(), 2);
            assert!(matches!(&e.repr[0], Node::Text(_, t) if t == &b"a".to_vec()));
            assert!(matches!(&e.repr[1], Node::Text(_, t) if t == &b"b".to_vec()));
        }
        other => panic!("expected expression, got {:?}", other),
    }
}

#[test]
fn blank_line_becomes_a_node() {
    let ast = parse_source(b"a\n\nb").unwrap();
    assert_eq!(ast.repr.len(), 3);
    assert!(matches!(&ast.repr[1], Node::EmptyLines(_)));
}

#[test]
fn sanitize_merges_adjacent_texts() {
    let ast = Ast {
        repr: vec![
            Node::Text(TextSpan { low: 0, high: 3 }, b"foo".to_vec()),
            Node::Text(TextSpan { low: 4, high: 9 }, b"''b''".to_vec()),
        ],
    };
    let clean = sanitize(ast);
    assert_eq!(
        clean,
        Ast {
            repr: vec![Node::Text(TextSpan { low: 0, high: 9 }, b"foo ''b''".to_vec())],
        }
    );
}

#[test]
fn sanitize_is_idempotent_on_a_sample() {
    let build = || {
        parse_source(b"[{ one two ''three'' || four }] five six").unwrap()
    };
    let once = sanitize(build());
    let twice = sanitize(sanitize(build()));
    assert_eq!(once, twice);
}

#[test]
fn sanitize_reaches_nested_expressions() {
    let ast = parse_source(b"[{ a b [{ c d }] }]").unwrap();
    let clean = sanitize(ast);
    match &clean.repr[0] {
        Node::Expression(_, e) => {
            assert_eq!(e.repr.len(), 2);
            assert!(matches!(&e.repr[0], Node::Text(_, t) if t == &b"a b".to_vec()));
            match &e.repr[1] {
                Node::Expression(_, inner) => {
                    assert_eq!(inner.repr.len(), 1);
                    assert!(
                        matches!(&inner.repr[0], Node::Text(_, t) if t == &b"c d".to_vec())
                    );
                }
                other => panic!("expected nested expression, got {:?}", other),
            }
        }
        other => panic!("expected expression, got {:?}", other),
    }
}

#[test]
fn sanitize_keeps_non_text_nodes() {
    let ast = parse_source(b"a || b").unwrap();
    let clean = sanitize(ast);
    assert_eq!(clean.repr.len(), 3);
    assert!(matches!(&clean.repr[1], Node::Divider(_)));
}

#[test]
fn expression_span_covers_children() {
    let ast = parse_source(b"[{ foo }]").unwrap();
    match &ast.repr[0] {
        Node::Expression(span, e) => {
            assert_eq!(*span, TextSpan { low: 0, high: 9 });
            match &e.repr[0] {
                Node::Text(inner, _) => {
                    assert!(span.low <= inner.low && inner.high <= span.high);
                }
                other => panic!("expected text, got {:?}", other),
            }
        }
        other => panic!("expected expression, got {:?}", other),
    }
}

#[test]
fn lexed_spans_are_ordered_and_in_bounds() {
    let src = b"[{ a ''b'' || $$c }]\n\nrest";
    let tokens = lex(src).unwrap();
    let mut last_end = 0;
    for (_, span) in &tokens {
        assert!(last_end <= span.low);
        assert!(span.low < span.high);
        assert!(span.high <= src.len());
        last_end = span.high;
    }
}

#[test]
fn evaluate_command_without_working_directory() {
    let line = format!("[{{{} notes.txt}}]", ["incl", "ude"].concat());
    assert_eq!(
        evaluate_command(line.as_bytes(), None),
        Err(Error::EvaluationFailure)
    );
}

#[test]
fn evaluate_command_unsupported_name() {
    let mut files = FileSet::new();
    files.add(b"notes.txt".to_vec(), b"hi".to_vec());
    assert_eq!(
        evaluate_command(b"[{exclude notes.txt}]", Some(&files)),
        Err(Error::EvaluationFailure)
    );
}

#[test]
fn evaluate_command_missing_file() {
    let files = FileSet::new();
    let line = format!("[{{{} notes.txt}}]", ["incl", "ude"].concat());
    assert_eq!(evaluate_command(line.as_bytes(), Some(&files)), Err(Error::Io));
}

#[test]
fn evaluate_command_fetches_trimmed_contents() {
    let mut files = FileSet::new();
    files.add(b"notes.txt".to_vec(), b"  hello there \n".to_vec());
    let line = format!("[{{{} notes.txt}}]", ["incl", "ude"].concat());
    assert_eq!(
        evaluate_command(line.as_bytes(), Some(&files)),
        Ok(b"hello there".to_vec())
    );
}

#[test]
fn evaluate_command_accepts_path_property() {
    let mut files = FileSet::new();
    files.add(b"notes.txt".to_vec(), b"contents".to_vec());
    let line = format!("[{{{} ::path ''notes.txt''}}]", ["incl", "ude"].concat());
    assert_eq!(
        evaluate_command(line.as_bytes(), Some(&files)),
        Ok(b"contents".to_vec())
    );
}

#[test]
fn evaluate_command_wrong_shape() {
    let mut files = FileSet::new();
    files.add(b"a".to_vec(), b"x".to_vec());
    files.add(b"b".to_vec(), b"y".to_vec());
    let line = format!("[{{{} a b}}]", ["incl", "ude"].concat());
    assert_eq!(
        evaluate_command(line.as_bytes(), Some(&files)),
        Err(Error::EvaluationFailure)
    );
}
