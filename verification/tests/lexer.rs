use litx::{Lexer, Token};

/// Test that an input string lexes to a specific token.
fn test(input: &[u8], expected: Token) {
    let mut lexer = Lexer::new(input);
    let (actual, _) = lexer.next().unwrap().unwrap();
    assert_eq!(expected, actual);
}

/// Test that the lex results of the next tokens match against a list of tokens.
fn test_tokens(input: &[u8], expected: &[Token]) {
    let mut lexer = Lexer::new(input);
    for expected_token in expected {
        let (actual, _) = lexer.next().unwrap().unwrap();
        assert_eq!(*expected_token, actual);
    }
}

#[test]
fn all_tokens() {
    let src = b"\
        [{ outer
            ::inner [{foo bar}]
            ::quote ''this''
            ||
            $$var

            // Comment
            baz quux
        }]";
    let expected = [
        Token::Open,
        Token::Word(b"outer".to_vec()),
        Token::Key(b"inner".to_vec()),
        Token::Open,
        Token::Word(b"foo".to_vec()),
        Token::Word(b"bar".to_vec()),
        Token::Close,
        Token::Key(b"quote".to_vec()),
        Token::Quote(b"this".to_vec()),
        Token::Divider,
        Token::Var(b"var".to_vec()),
        Token::BlankLine,
        Token::Comment(b"Comment".to_vec()),
        Token::Word(b"baz".to_vec()),
        Token::Word(b"quux".to_vec()),
        Token::Close,
    ];
    test_tokens(src, &expected);
}

#[test]
fn expression_simple() {
    let src = b"[{expr ::key val}]";
    let expected = [
        Token::Open,
        Token::Word(b"expr".to_vec()),
        Token::Key(b"key".to_vec()),
        Token::Word(b"val".to_vec()),
        Token::Close,
    ];
    test_tokens(src, &expected);
}

#[test]
fn quote_empty() {
    let src = b"''''";
    let expected = Token::Quote(b"".to_vec());
    test(src, expected);
}

#[test]
fn quote_nonempty() {
    let src = b"''Foo bar baz''";
    let expected = Token::Quote(b"Foo bar baz".to_vec());
    test(src, expected);
}

#[test]
fn quote_with_tokens() {
    let src = b"''[{ ::Foo Bar }]''";
    let expected = Token::Quote(b"[{ ::Foo Bar }]".to_vec());
    test(src, expected);
}

#[test]
fn quote_ends_correctly() {
    let src = b"''Test'' Foo bar";
    let expected = Token::Quote(b"Test".to_vec());
    test(src, expected);
}

#[test]
fn quote_multiple() {
    let src = b"''Foo'' ''Bar''";
    let expected = [
        Token::Quote(b"Foo".to_vec()),
        Token::Quote(b"Bar".to_vec()),
    ];
    test_tokens(src, &expected);
}

#[test]
fn comment_single_line() {
    let src = b"// Foo bar\n";
    let expected = Token::Comment(b"Foo bar".to_vec());
    test(src, expected);
}

#[test]
fn comment_empty() {
    let src = b"//\n";
    let expected = Token::Comment(b"".to_vec());
    test(src, expected);
}

#[test]
fn comment_multiple_lines() {
    let src = b"// Foo bar\n// Baz quux\n";
    let expected = [
        Token::Comment(b"Foo bar".to_vec()),
        Token::Comment(b"Baz quux".to_vec()),
    ];
    test_tokens(src, &expected);
}

#[test]
fn comment_ends_correctly() {
    let src = b"// Foo bar\nBaz quux";
    let expected = Token::Comment(b"Foo bar".to_vec());
    test(src, expected);
}

#[test]
fn open() {
    let src = b"[{";
    let expected = Token::Open;
    test(src, expected);
}

#[test]
fn close() {
    let src = b"}]";
    let expected = Token::Close;
    test(src, expected);
}

#[test]
fn divider() {
    let src = b"||";
    let expected = Token::Divider;
    test(src, expected);
}

#[test]
fn key_ends_correctly() {
    let src = b"::Key Value";
    let expected = Token::Key(b"Key".to_vec());
    test(src, expected);
}

#[test]
fn var_ends_correctly() {
    let src = b"$$foo bar";
    let expected = Token::Var(b"foo".to_vec());
    test(src, expected);
}

#[test]
fn word_ends_correctly() {
    let src = b"foo bar";
    let expected = Token::Word(b"foo".to_vec());
    test(src, expected);
}
