use litx::{lex, parse, Ast, Error, Node, TextSpan, Token};

fn parse_one(source: &[u8]) -> Node {
    let tokens = lex(source).unwrap();
    let mut ast = parse(&tokens).unwrap();
    assert_eq!(ast.repr.len(), 1);
    ast.repr.remove(0)
}

#[test]
fn identity_of_named_expression() {
    let node = parse_one(b"[{title rest}]");
    assert_eq!(node.identity(), Some(&b"title".to_vec()));
}

#[test]
fn identity_of_unnamed_expression() {
    let node = parse_one(b"[{|| a}]");
    assert_eq!(node.identity(), None);
    let empty = parse_one(b"[{}]");
    assert_eq!(empty.identity(), None);
}

#[test]
fn as_text_on_leaves() {
    let text = parse_one(b"word");
    assert_eq!(text.as_text(), Some(&b"word".to_vec()));
    let var = parse_one(b"$$name");
    assert_eq!(var.as_text(), None);
}

#[test]
fn property_lookup_finds_value() {
    let node = parse_one(b"[{doc ::author ''A. Writer'' ::year 2024}]");
    match node.property(b"author") {
        Some(Node::Text(_, t)) => assert_eq!(t, &b"A. Writer".to_vec()),
        other => panic!("expected text value, got {:?}", other),
    }
    match node.property(b"year") {
        Some(Node::Text(_, t)) => assert_eq!(t, &b"2024".to_vec()),
        other => panic!("expected text value, got {:?}", other),
    }
    assert!(node.property(b"missing").is_none());
}

#[test]
fn property_on_non_expression() {
    let node = parse_one(b"word");
    assert!(node.property(b"any").is_none());
}

#[test]
fn section_walks_dividers() {
    let node = parse_one(b"[{a b || c || d}]");
    let s0 = node.section(0).unwrap();
    assert_eq!(s0.len(), 3);
    assert!(matches!(&s0[2], Node::Divider(_)));
    let s1 = node.section(1).unwrap();
    assert_eq!(s1.len(), 2);
    assert!(matches!(&s1[0], Node::Text(_, t) if t == &b"c".to_vec()));
    let s2 = node.section(2).unwrap();
    assert_eq!(s2.len(), 1);
    assert!(matches!(&s2[0], Node::Text(_, t) if t == &b"d".to_vec()));
    assert!(node.section(3).is_none());
}

#[test]
fn node_constructors_carry_spans() {
    let span = TextSpan { low: 2, high: 7 };
    assert_eq!(Node::div(span), Node::Divider(span));
    assert_eq!(Node::empty(span), Node::EmptyLines(span));
    assert_eq!(
        Node::var(span, Token::Var(b"v".to_vec())),
        Node::Variable(span, b"v".to_vec())
    );
    assert_eq!(
        Node::txt(span, Token::Word(b"w".to_vec())),
        Node::Text(span, b"w".to_vec())
    );
    let value = Node::Text(span, b"x".to_vec());
    assert_eq!(
        Node::prop(span, Token::Key(b"k".to_vec()), value),
        Node::Property(
            span,
            b"k".to_vec(),
            Box::new(Node::Text(span, b"x".to_vec()))
        )
    );
    assert_eq!(
        Node::expr(span, Vec::new()),
        Node::Expression(span, litx::Expression { repr: Vec::new() })
    );
}

#[test]
fn lex_failure_for_dangling_prefixes() {
    assert_eq!(lex(b"::"), Err(Error::LexFailure));
    assert_eq!(lex(b"$$ x"), Err(Error::LexFailure));
}

#[test]
fn words_keep_embedded_structural_bytes() {
    let tokens = lex(b"a[b c/d")
        .unwrap()
        .into_iter()
        .map(|(t, _)| t)
        .collect::<Vec<_>>();
    assert_eq!(
        tokens,
        vec![Token::Word(b"a[b".to_vec()), Token::Word(b"c/d".to_vec())]
    );
}

#[test]
fn blank_line_spans_all_breaks() {
    let tokens = lex(b"a\n \n\nb").unwrap();
    assert_eq!(tokens.len(), 3);
    assert_eq!(tokens[1].0, Token::BlankLine);
    assert_eq!(tokens[1].1, TextSpan { low: 1, high: 5 });
}

#[test]
fn empty_ast_round_trip() {
    let ast = Ast { repr: Vec::new() };
    let clean = litx::sanitize(ast);
    assert_eq!(clean, Ast { repr: Vec::new() });
}
