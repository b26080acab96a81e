//! Front end for a lightweight markup language: a tokenizer producing
//! byte-accurate source spans, a recursive-descent parser building a
//! span-annotated syntax tree, a normalization pass that coalesces adjacent
//! text nodes, and a line-oriented preprocessor that expands directives.
//!
//! The pipeline runs source text through the preprocessor, then the lexer,
//! then the parser, and finally the sanitizer; every stage is a pure
//! transformation over in-memory byte sequences. File contents that
//! directives ask for are injected as plain values, so the whole pipeline
//! stays free of input and output of its own.

mod ast;
mod error;
mod lexer;
mod parser;
mod preprocess;
mod sanitize;
mod span;
mod strategy;
mod token;

pub use ast::{
    lemma_nodes_view_elts, lemma_nodes_view_push, nodes_view, spec_div_skip, spec_property,
    spec_sec_end, Ast, Expression, Node, NodeView,
};
pub use error::{Error, ErrorView};
pub use lexer::{
    concat_spans, lemma_raw_spans_tile, lemma_tokens_ordered, lex, spec_next, spec_raw_spans,
    spec_scan, spec_tokens, trim_range, Lexer, Next, Scan,
};
pub use parser::{
    from_tokens, lemma_lexed_spans_covered, lemma_parse_node_spans, lemma_parse_nodes_spans,
    lemma_parse_spans_covered, next_node, parse, span_within, spans_covered, spans_ordered,
    spec_from_tokens, spec_parse, spec_parse_node, spec_parse_nodes, Rep, Step,
};
pub use preprocess::{
    as_preprocessor_command, directive_path, evaluate_command, files_view, opt_files_view,
    preprocess, process, sections_view, spec_as_command, spec_command, spec_directive_path,
    spec_eval, spec_eval_fetch, spec_evaluate, spec_fetch_name, spec_line_step, spec_lookup,
    spec_preprocess_from, spec_process, spec_split, warnings_view, Command, FileSet, Warning,
};
pub use sanitize::{
    lemma_adjacent_texts_merge, lemma_sanitize_idempotent, no_adjacent_texts, node_size,
    nodes_size, sanitize, spec_sanitize_node, spec_sanitize_nodes,
};
pub use span::{
    lemma_merge_associative, lemma_merge_commutative, lemma_merge_idempotent, TextSpan,
};
pub use strategy::{
    Backmatter, Bibliography, Body, Field, Footer, Frontmatter, Header, Strategy, TextSettings,
};
pub use token::{tokens_view, Token, TokenView};
