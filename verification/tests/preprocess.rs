use litx::{
    as_preprocessor_command, directive_path, from_tokens, lex, next_node, preprocess, process,
    Command, Error, FileSet, Node, TextSpan, Token,
};

fn fetch_directive(args: &str) -> String {
    format!("#[{{{} {}}}]", ["incl", "ude"].concat(), args)
}

#[test]
fn plain_lines_pass_through_with_newlines() {
    let (out, warnings) = preprocess(b"one\ntwo", None);
    assert_eq!(out, b"one\ntwo\n".to_vec());
    assert!(warnings.is_empty());
}

#[test]
fn carriage_returns_are_normalized() {
    let (out, warnings) = preprocess(b"one\r\ntwo\r\n", None);
    assert_eq!(out, b"one\ntwo\n".to_vec());
    assert!(warnings.is_empty());
}

#[test]
fn empty_source_preprocesses_to_nothing() {
    let (out, warnings) = preprocess(b"", None);
    assert_eq!(out, b"".to_vec());
    assert!(warnings.is_empty());
}

#[test]
fn directive_line_is_replaced_by_file_contents() {
    let mut files = FileSet::new();
    files.add(b"notes.txt".to_vec(), b"  from the file \n".to_vec());
    let source = format!("before\n{}\nafter", fetch_directive("::path ''notes.txt''"));
    let (out, warnings) = preprocess(source.as_bytes(), Some(&files));
    assert_eq!(out, b"before\nfrom the file\nafter\n".to_vec());
    assert!(warnings.is_empty());
}

#[test]
fn failing_directive_degrades_to_literal_text() {
    let files = FileSet::new();
    let directive = fetch_directive("::path ''missing.txt''");
    let source = format!("before\n{}\nafter", directive);
    let (out, warnings) = preprocess(source.as_bytes(), Some(&files));
    let expected = format!("before\n{}\nafter\n", directive);
    assert_eq!(out, expected.as_bytes().to_vec());
    assert_eq!(warnings.len(), 1);
    assert_eq!(warnings[0].line, 2);
    assert_eq!(warnings[0].error, Error::Io);
}

#[test]
fn unsupported_command_degrades_and_later_lines_continue() {
    let mut files = FileSet::new();
    files.add(b"notes.txt".to_vec(), b"inserted".to_vec());
    let source = format!(
        "#[{{frobnicate x}}]\n{}\nlast",
        fetch_directive("notes.txt")
    );
    let (out, warnings) = preprocess(source.as_bytes(), Some(&files));
    assert_eq!(out, b"#[{frobnicate x}]\ninserted\nlast\n".to_vec());
    assert_eq!(warnings.len(), 1);
    assert_eq!(warnings[0].line, 1);
    assert_eq!(warnings[0].error, Error::EvaluationFailure);
}

#[test]
fn directive_needs_working_directory() {
    let directive = fetch_directive("notes.txt");
    let (out, warnings) = preprocess(directive.as_bytes(), None);
    assert_eq!(out, format!("{}\n", directive).as_bytes().to_vec());
    assert_eq!(warnings.len(), 1);
    assert_eq!(warnings[0].error, Error::EvaluationFailure);
}

#[test]
fn as_preprocessor_command_strips_hash() {
    assert_eq!(
        as_preprocessor_command(b"  #[{cmd arg}]  "),
        Some(b"[{cmd arg}]".to_vec())
    );
    assert_eq!(as_preprocessor_command(b"#[{}]"), Some(b"[{}]".to_vec()));
    assert_eq!(as_preprocessor_command(b"#[{}"), None);
    assert_eq!(as_preprocessor_command(b"plain text"), None);
    assert_eq!(as_preprocessor_command(b"[{cmd}]"), None);
}

#[test]
fn command_splits_sections_at_dividers() {
    let tokens = lex(b"[{name a b || c ||}]").unwrap();
    let (node, _) = next_node(&tokens, 0);
    let command = Command::new(node.unwrap().unwrap()).unwrap();
    assert_eq!(command.name, b"name".to_vec());
    assert_eq!(command.sections.len(), 2);
    assert_eq!(command.sections[0].len(), 2);
    assert_eq!(command.sections[1].len(), 1);
}

#[test]
fn command_requires_text_name() {
    let tokens = lex(b"[{|| a}]").unwrap();
    let (node, _) = next_node(&tokens, 0);
    match Command::new(node.unwrap().unwrap()) {
        Err(Error::ParseFailure(None)) => {}
        other => panic!("expected parse failure, got {:?}", other),
    }
}

#[test]
fn directive_path_reports_requested_file() {
    let line = fetch_directive("::path ''notes.txt''");
    assert_eq!(directive_path(line.as_bytes()), Some(b"notes.txt".to_vec()));
    assert_eq!(directive_path(b"#[{other notes.txt}]"), None);
    assert_eq!(directive_path(b"just a line"), None);
}

#[test]
fn process_runs_the_whole_pipeline() {
    let mut files = FileSet::new();
    files.add(b"body.txt".to_vec(), b"first second".to_vec());
    let source = format!("[{{ doc\n{}\n}}]", fetch_directive("body.txt"));
    let (result, warnings) = process(source.as_bytes(), Some(&files));
    assert!(warnings.is_empty());
    let ast = result.unwrap();
    assert_eq!(ast.repr.len(), 1);
    match &ast.repr[0] {
        Node::Expression(_, e) => {
            assert_eq!(e.repr.len(), 1);
            assert!(
                matches!(&e.repr[0], Node::Text(_, t) if t == &b"doc first second".to_vec())
            );
        }
        other => panic!("expected expression, got {:?}", other),
    }
}

#[test]
fn process_surfaces_parse_failures() {
    let (result, warnings) = process(b"[{ foo", None);
    assert!(warnings.is_empty());
    match result {
        Err(Error::ParseFailure(_)) => {}
        other => panic!("expected parse failure, got {:?}", other),
    }
}

#[test]
fn next_node_on_empty_stream_fails() {
    let tokens: Vec<(Token, TextSpan)> = Vec::new();
    let (r, pos) = next_node(&tokens, 0);
    assert_eq!(r, Err(Error::ParseFailure(None)));
    assert_eq!(pos, 0);
}

#[test]
fn from_tokens_collects_until_failure() {
    let tokens = lex(b"a b ::dangling").unwrap();
    let nodes = from_tokens(&tokens);
    assert_eq!(nodes.len(), 2);
    assert!(matches!(&nodes[0], Node::Text(_, t) if t == &b"a".to_vec()));
    assert!(matches!(&nodes[1], Node::Text(_, t) if t == &b"b".to_vec()));
}
