use litx::{lex, parse, Ast, Expression, Node, TextSpan};

fn test(source: &[u8], expected: Ast) {
    let tokens = lex(source).unwrap();
    let parsed = parse(&tokens).unwrap();
    assert_eq!(expected, parsed);
}

#[test]
fn nothing() {
    let src = b"";
    let expected = Ast { repr: Vec::new() };
    test(src, expected);
}

#[test]
fn something() {
    let src = b"[{ foo }]";
    let expected = Ast {
        repr: vec![Node::Expression(
            TextSpan { low: 0, high: 9 },
            Expression {
                repr: vec![Node::Text(TextSpan { low: 3, high: 6 }, b"foo".to_vec())],
            },
        )],
    };
    test(src, expected);
}
