//! The parser: a small recursive grammar over the token stream.
//!
//! A node is a blank-line marker, a bracketed expression, a divider, a
//! variable, a key followed by exactly one value node, or a word or quote
//! (both become text). Comment tokens are dropped wherever they occur in a
//! node repetition. A key with no following node and an opening bracket
//! with no matching close are parse failures; a stray closing bracket
//! terminates the innermost node repetition and is consumed silently.
//!
//! Every produced node's span merges the spans of the tokens consumed while
//! building it: an expression's span runs from its opening to its closing
//! bracket, and a property's span covers its key and its value.

use vstd::prelude::*;

use crate::ast::{clone_bytes, nodes_view, Ast, Expression, Node, NodeView};
use crate::error::Error;
use crate::span::TextSpan;
use crate::token::{tokens_view, Token, TokenView};

verus! {

/// The outcome of trying to parse one node at a position.
pub enum Step {
    /// A grammar violation, with the offending token where one exists.
    Fail(Option<(TokenView, TextSpan)>),
    /// A closing bracket was consumed; parsing continues at the carried
    /// position.
    CloseTok(TextSpan, int),
    /// The stream was already exhausted.
    End,
    /// A node was built; parsing continues at the carried position.
    Node(NodeView, int),
}

/// The outcome of parsing a node repetition.
pub enum Rep {
    /// A grammar violation, with the offending token where one exists.
    Fail(Option<(TokenView, TextSpan)>),
    /// The repetition ended: its nodes, the span of the closing bracket
    /// that ended it (none when the stream simply ran out), and the
    /// position parsing continues from.
    Done(Seq<NodeView>, Option<TextSpan>, int),
}

/// Parse one node of the grammar at position `i`.
pub open spec fn spec_parse_node(ts: Seq<(TokenView, TextSpan)>, i: int) -> Step
    decreases ts.len() - i, 0int when 0 <= i <= ts.len()
{
    if i >= ts.len() {
        Step::End
    } else {
        let sp = ts[i].1;
        match ts[i].0 {
            TokenView::Close => Step::CloseTok(sp, i + 1),
            TokenView::BlankLine => Step::Node(NodeView::EmptyLines(sp), i + 1),
            TokenView::Divider => Step::Node(NodeView::Divider(sp), i + 1),
            TokenView::Var(v) => Step::Node(NodeView::Variable(sp, v), i + 1),
            TokenView::Word(w) => Step::Node(NodeView::Text(sp, w), i + 1),
            TokenView::Quote(q) => Step::Node(NodeView::Text(sp, q), i + 1),
            TokenView::Comment(_) => Step::Fail(Some(ts[i])),
            TokenView::Whitespace => Step::Fail(Some(ts[i])),
            TokenView::Key(k) => match spec_parse_node(ts, i + 1) {
                Step::Node(v, e) => Step::Node(
                    NodeView::Property(TextSpan::spec_merge(sp, v.span()), k, Box::new(v)),
                    e,
                ),
                Step::CloseTok(csp, _) => Step::Fail(Some((TokenView::Close, csp))),
                Step::End => Step::Fail(None),
                Step::Fail(f) => Step::Fail(f),
            },
            TokenView::Open => match spec_parse_nodes(ts, i + 1) {
                Rep::Done(ch, Some(csp), e) => Step::Node(
                    NodeView::Expression(TextSpan::spec_merge(sp, csp), ch),
                    e,
                ),
                Rep::Done(_, None, _) => Step::Fail(None),
                Rep::Fail(f) => Step::Fail(f),
            },
        }
    }
}

/// Parse a node repetition from position `i`: nodes until a closing bracket
/// or the end of the stream, comments dropped.
pub open spec fn spec_parse_nodes(ts: Seq<(TokenView, TextSpan)>, i: int) -> Rep
    decreases ts.len() - i, 1int when 0 <= i <= ts.len()
{
    if i >= ts.len() {
        Rep::Done(Seq::empty(), None, i)
    } else if ts[i].0 is Comment {
        spec_parse_nodes(ts, i + 1)
    } else {
        match spec_parse_node(ts, i) {
            Step::CloseTok(csp, e) => Rep::Done(Seq::empty(), Some(csp), e),
            Step::End => Rep::Fail(None),
            Step::Fail(f) => Rep::Fail(f),
            Step::Node(n, e) => if i < e <= ts.len() {
                match spec_parse_nodes(ts, e) {
                    Rep::Done(rest, c, e2) => Rep::Done(seq![n] + rest, c, e2),
                    Rep::Fail(f) => Rep::Fail(f),
                }
            } else {
                Rep::Fail(None)
            },
        }
    }
}

/// The whole parse: the node repetition from the start of the stream. A
/// stray closing bracket ends it; what follows one is ignored.
pub open spec fn spec_parse(ts: Seq<(TokenView, TextSpan)>) -> Result<
    Seq<NodeView>,
    Option<(TokenView, TextSpan)>,
> {
    match spec_parse_nodes(ts, 0) {
        Rep::Done(ch, _, _) => Ok(ch),
        Rep::Fail(f) => Err(f),
    }
}

/// Parsing a node always consumes at least one token and never leaves the
/// stream, and a repetition never moves backward.
pub proof fn lemma_parse_bounds(ts: Seq<(TokenView, TextSpan)>, i: int)
    requires
        0 <= i <= ts.len(),
    ensures
        spec_parse_node(ts, i) matches Step::Node(n, e) ==> i < e <= ts.len(),
        spec_parse_node(ts, i) matches Step::CloseTok(c, e) ==> e == i + 1,
        spec_parse_nodes(ts, i) matches Rep::Done(ch, c, e) ==> i <= e <= ts.len(),
    decreases ts.len() - i, 2int,
{
    if i < ts.len() {
        lemma_parse_node_bounds(ts, i);
        if ts[i].0 is Comment {
            lemma_parse_bounds(ts, i + 1);
        } else {
            match spec_parse_node(ts, i) {
                Step::Node(n, e) => {
                    if i < e <= ts.len() {
                        lemma_parse_bounds(ts, e);
                    }
                },
                _ => {},
            }
        }
    }
}

/// The node half of the bounds proof.
proof fn lemma_parse_node_bounds(ts: Seq<(TokenView, TextSpan)>, i: int)
    requires
        0 <= i <= ts.len(),
    ensures
        spec_parse_node(ts, i) matches Step::Node(n, e) ==> i < e <= ts.len(),
        spec_parse_node(ts, i) matches Step::CloseTok(c, e) ==> e == i + 1,
    decreases ts.len() - i, 1int,
{
    if i < ts.len() {
        match ts[i].0 {
            TokenView::Key(_) => {
                lemma_parse_node_bounds(ts, i + 1);
            },
            TokenView::Open => {
                lemma_parse_bounds(ts, i + 1);
            },
            _ => {},
        }
    }
}

/// Copy a token, content and all.
fn clone_token(t: &Token) -> (r: Token)
    ensures
        r@ == t@,
{
    match t {
        Token::Quote(s) => Token::Quote(clone_bytes(s)),
        Token::Comment(s) => Token::Comment(clone_bytes(s)),
        Token::Word(s) => Token::Word(clone_bytes(s)),
        Token::Key(s) => Token::Key(clone_bytes(s)),
        Token::Var(s) => Token::Var(clone_bytes(s)),
        Token::Open => Token::Open,
        Token::Close => Token::Close,
        Token::Divider => Token::Divider,
        Token::BlankLine => Token::BlankLine,
        Token::Whitespace => Token::Whitespace,
    }
}

/// The executable mirror of `Step`.
enum StepX {
    Fail(Option<(Token, TextSpan)>),
    CloseTok(TextSpan, usize),
    End,
    Node(Node, usize),
}

/// The executable mirror of `Rep`.
enum RepX {
    Fail(Option<(Token, TextSpan)>),
    Done(Vec<Node>, Option<TextSpan>, usize),
}

/// The executable step matches its specification value.
spec fn step_matches(r: StepX, s: Step) -> bool {
    match r {
        StepX::Fail(None) => s == Step::Fail(None::<(TokenView, TextSpan)>),
        StepX::Fail(Some((t, sp))) => s == Step::Fail(Some((t@, sp))),
        StepX::CloseTok(sp, e) => s == Step::CloseTok(sp, e as int),
        StepX::End => s == Step::End,
        StepX::Node(n, e) => s == Step::Node(n@, e as int),
    }
}

/// The executable repetition matches its specification value.
spec fn rep_matches(r: RepX, s: Rep) -> bool {
    match r {
        RepX::Fail(None) => s == Rep::Fail(None::<(TokenView, TextSpan)>),
        RepX::Fail(Some((t, sp))) => s == Rep::Fail(Some((t@, sp))),
        RepX::Done(ch, c, e) => s == Rep::Done(nodes_view(ch@), c, e as int),
    }
}

/// Parse one node at position `i` of the token stream.
fn parse_node_at(ts: &Vec<(Token, TextSpan)>, i: usize) -> (r: StepX)
    requires
        i <= ts.len(),
    ensures
        step_matches(r, spec_parse_node(tokens_view(ts@), i as int)),
        r matches StepX::Node(n, e) ==> i < e <= ts.len(),
        r matches StepX::CloseTok(c, e) ==> e == i + 1,
    decreases ts.len() - i, 0int,
{
    let ghost tv = tokens_view(ts@);
    proof {
        assert(tv.len() == ts@.len());
        lemma_parse_node_bounds(tv, i as int);
        if (i as int) < tv.len() {
            assert(tv[i as int] == (ts@[i as int].0@, ts@[i as int].1));
        }
    }
    if i >= ts.len() {
        return StepX::End;
    }
    let sp = ts[i].1;
    match &ts[i].0 {
        Token::Close => StepX::CloseTok(sp, i + 1),
        Token::BlankLine => StepX::Node(Node::EmptyLines(sp), i + 1),
        Token::Divider => StepX::Node(Node::Divider(sp), i + 1),
        Token::Var(v) => StepX::Node(Node::Variable(sp, clone_bytes(v)), i + 1),
        Token::Word(w) => StepX::Node(Node::Text(sp, clone_bytes(w)), i + 1),
        Token::Quote(q) => StepX::Node(Node::Text(sp, clone_bytes(q)), i + 1),
        Token::Comment(_) => StepX::Fail(Some((clone_token(&ts[i].0), sp))),
        Token::Whitespace => StepX::Fail(Some((clone_token(&ts[i].0), sp))),
        Token::Key(k) => {
            let key = clone_bytes(k);
            match parse_node_at(ts, i + 1) {
                StepX::Node(v, e) => {
                    let vspan = v.span();
                    StepX::Node(
                        Node::Property(TextSpan::merge(sp, vspan), key, Box::new(v)),
                        e,
                    )
                },
                StepX::CloseTok(csp, _) => StepX::Fail(Some((Token::Close, csp))),
                StepX::End => StepX::Fail(None),
                StepX::Fail(f) => StepX::Fail(f),
            }
        },
        Token::Open => {
            match parse_nodes_at(ts, i + 1) {
                RepX::Done(ch, c, e) => {
                    match c {
                        Some(csp) => StepX::Node(
                            Node::Expression(TextSpan::merge(sp, csp), Expression { repr: ch }),
                            e,
                        ),
                        None => StepX::Fail(None),
                    }
                },
                RepX::Fail(f) => StepX::Fail(f),
            }
        },
    }
}

/// Parse the node repetition from position `i` of the token stream.
fn parse_nodes_at(ts: &Vec<(Token, TextSpan)>, i: usize) -> (r: RepX)
    requires
        i <= ts.len(),
    ensures
        rep_matches(r, spec_parse_nodes(tokens_view(ts@), i as int)),
        r matches RepX::Done(ch, c, e) ==> i <= e <= ts.len(),
    decreases ts.len() - i, 1int,
{
    let ghost tv = tokens_view(ts@);
    proof {
        assert(tv.len() == ts@.len());
        lemma_parse_bounds(tv, i as int);
        if (i as int) < tv.len() {
            assert(tv[i as int] == (ts@[i as int].0@, ts@[i as int].1));
        }
    }
    if i >= ts.len() {
        return RepX::Done(Vec::new(), None, i);
    }
    let is_comment = match &ts[i].0 {
        Token::Comment(_) => true,
        _ => false,
    };
    if is_comment {
        return parse_nodes_at(ts, i + 1);
    }
    match parse_node_at(ts, i) {
        StepX::CloseTok(csp, e) => RepX::Done(Vec::new(), Some(csp), e),
        StepX::End => RepX::Fail(None),
        StepX::Fail(f) => RepX::Fail(f),
        StepX::Node(n, e) => {
            let ghost nv = n@;
            match parse_nodes_at(ts, e) {
                RepX::Done(rest, c, e2) => {
                    let ghost rest_v = rest@;
                    let mut ch = rest;
                    ch.insert(0, n);
                    proof {
                        crate::ast::lemma_nodes_view_elts(ch@);
                        crate::ast::lemma_nodes_view_elts(rest_v);
                        assert forall|k: int| 0 <= k < ch@.len() implies nodes_view(ch@)[k] == (
                        seq![nv] + nodes_view(rest_v))[k] by {
                            assert(nodes_view(ch@)[k] == ch@[k]@);
                            if k == 0 {
                                assert(ch@[0] == n);
                            } else {
                                assert(ch@[k] == rest_v[k - 1]);
                                assert(nodes_view(rest_v)[k - 1] == rest_v[k - 1]@);
                            }
                        }
                        assert(nodes_view(ch@) =~= seq![nv] + nodes_view(rest_v));
                    }
                    RepX::Done(ch, c, e2)
                },
                RepX::Fail(f) => RepX::Fail(f),
            }
        },
    }
}

/// Parse a token stream into a syntax tree, or fail with the offending
/// token where one exists.
pub fn parse(tokens: &Vec<(Token, TextSpan)>) -> (r: Result<Ast, Error>)
    ensures
        match spec_parse(tokens_view(tokens@)) {
            Ok(nodes) => r matches Ok(a) && a@ == nodes,
            Err(f) => r matches Err(e) && e@ == crate::error::ErrorView::ParseFailure(f),
        },
{
    match parse_nodes_at(tokens, 0) {
        RepX::Done(ch, _, _) => Ok(Ast { repr: ch }),
        RepX::Fail(f) => Err(Error::ParseFailure(f)),
    }
}

/// The nodes that parsing from position `i` yields before the first closing
/// bracket, failure or end of stream; used by tolerant, collect-what-parses
/// callers.
pub open spec fn spec_from_tokens(ts: Seq<(TokenView, TextSpan)>, i: int) -> Seq<NodeView>
    decreases ts.len() - i when 0 <= i <= ts.len()
{
    if i >= ts.len() {
        Seq::empty()
    } else if ts[i].0 is Comment {
        spec_from_tokens(ts, i + 1)
    } else {
        match spec_parse_node(ts, i) {
            Step::Node(n, e) => if i < e <= ts.len() {
                seq![n] + spec_from_tokens(ts, e)
            } else {
                seq![n]
            },
            _ => Seq::empty(),
        }
    }
}

/// Parse exactly one node starting at `pos`, with all its children. A
/// consumed stray closing bracket yields `Ok(None)`; an exhausted stream or
/// a grammar violation yields the failure. The second component is the
/// position parsing stopped at.
pub fn next_node(tokens: &Vec<(Token, TextSpan)>, pos: usize) -> (r: (
    Result<Option<Node>, Error>,
    usize,
))
    requires
        pos <= tokens.len(),
    ensures
        match spec_parse_node(tokens_view(tokens@), pos as int) {
            Step::Node(n, e) => {
                &&& r.0 matches Ok(o)
                &&& o matches Some(nd)
                &&& nd@ == n
                &&& r.1 as int == e
            },
            Step::CloseTok(_, e) => r.0 == Ok::<Option<Node>, Error>(None) && r.1 as int == e,
            Step::End => (r.0 matches Err(er) && er@ == crate::error::ErrorView::ParseFailure(
                None,
            )) && r.1 == pos,
            Step::Fail(f) => (r.0 matches Err(er) && er@ == crate::error::ErrorView::ParseFailure(
                f,
            )) && r.1 == pos,
        },
{
    match parse_node_at(tokens, pos) {
        StepX::Node(n, e) => (Ok(Some(n)), e),
        StepX::CloseTok(_, e) => (Ok(None), e),
        StepX::End => (Err(Error::ParseFailure(None)), pos),
        StepX::Fail(f) => (Err(Error::ParseFailure(f)), pos),
    }
}

/// Parse nodes from the start of the stream, collecting what parses and
/// stopping silently at the first closing bracket, failure or end of
/// stream.
pub fn from_tokens(tokens: &Vec<(Token, TextSpan)>) -> (r: Vec<Node>)
    ensures
        nodes_view(r@) == spec_from_tokens(tokens_view(tokens@), 0),
{
    let ghost tv = tokens_view(tokens@);
    let mut acc: Vec<Node> = Vec::new();
    let mut pos: usize = 0;
    loop
        invariant
            pos <= tokens.len(),
            tv == tokens_view(tokens@),
            tv.len() == tokens@.len(),
            spec_from_tokens(tv, 0) == nodes_view(acc@) + spec_from_tokens(tv, pos as int),
        decreases tokens.len() - pos,
    {
        proof {
            if (pos as int) < tv.len() {
                assert(tv[pos as int] == (tokens@[pos as int].0@, tokens@[pos as int].1));
            }
        }
        if pos >= tokens.len() {
            proof {
                assert(spec_from_tokens(tv, pos as int) =~= Seq::<NodeView>::empty());
                assert(nodes_view(acc@) + spec_from_tokens(tv, pos as int) =~= nodes_view(acc@));
            }
            return acc;
        }
        let is_comment = match &tokens[pos].0 {
            Token::Comment(_) => true,
            _ => false,
        };
        if is_comment {
            pos = pos + 1;
            continue;
        }
        match parse_node_at(tokens, pos) {
            StepX::Node(n, e) => {
                let ghost nv = n@;
                let ghost acc_pre = acc@;
                acc.push(n);
                proof {
                    crate::ast::lemma_nodes_view_push(acc_pre, acc@[acc@.len() - 1]);
                    assert(acc@ =~= acc_pre.push(acc@[acc@.len() - 1]));
                    assert(spec_from_tokens(tv, pos as int) == seq![nv] + spec_from_tokens(
                        tv,
                        e as int,
                    ));
                    assert(nodes_view(acc_pre) + (seq![nv] + spec_from_tokens(tv, e as int))
                        =~= nodes_view(acc@) + spec_from_tokens(tv, e as int));
                }
                pos = e;
            },
            _ => {
                proof {
                    assert(spec_from_tokens(tv, pos as int) =~= Seq::<NodeView>::empty());
                    assert(nodes_view(acc@) + spec_from_tokens(tv, pos as int) =~= nodes_view(
                        acc@,
                    ));
                }
                return acc;
            },
        }
    }
}

/// One span lies inside another.
pub open spec fn span_within(inner: TextSpan, outer: TextSpan) -> bool {
    outer.low <= inner.low && inner.high <= outer.high
}

/// Every expression's span covers the spans of all of its children, and
/// every property's span covers its value, at every depth.
pub open spec fn spans_covered(n: NodeView) -> bool
    decreases n,
{
    match n {
        NodeView::Expression(sp, ch) => forall|k: int|
            0 <= k < ch.len() ==> span_within((#[trigger] ch[k]).span(), sp) && spans_covered(
                ch[k],
            ),
        NodeView::Property(sp, _, v) => span_within(v.span(), sp) && spans_covered(*v),
        _ => true,
    }
}

/// The spans of a token stream are well formed and laid out left to right:
/// what the lexer produces.
pub open spec fn spans_ordered(ts: Seq<(TokenView, TextSpan)>) -> bool {
    &&& forall|k: int| 0 <= k < ts.len() ==> (#[trigger] ts[k]).1.low <= ts[k].1.high
    &&& forall|k: int| 0 <= k < ts.len() - 1 ==> (#[trigger] ts[k]).1.high <= ts[k + 1].1.low
}

/// In an ordered stream, spans grow with the token position.
proof fn lemma_ordered_mono(ts: Seq<(TokenView, TextSpan)>, k: int, l: int)
    requires
        spans_ordered(ts),
        0 <= k <= l < ts.len(),
    ensures
        ts[k].1.high <= ts[l].1.high,
        ts[k].1.low <= ts[l].1.low,
    decreases l - k,
{
    if k < l {
        lemma_ordered_mono(ts, k + 1, l);
    }
}

/// Parsing an ordered token stream produces nodes whose spans nest: each
/// node's span starts at its first token's start, ends at its last token's
/// end, and covers the spans of everything below it.
pub proof fn lemma_parse_node_spans(ts: Seq<(TokenView, TextSpan)>, i: int)
    requires
        0 <= i <= ts.len(),
        spans_ordered(ts),
    ensures
        spec_parse_node(ts, i) matches Step::Node(n, e) ==> {
            &&& spans_covered(n)
            &&& n.span().low == ts[i].1.low
            &&& n.span().high == ts[e - 1].1.high
        },
    decreases ts.len() - i, 1int,
{
    lemma_parse_node_bounds(ts, i);
    if i < ts.len() {
        match ts[i].0 {
            TokenView::Key(_) => {
                lemma_parse_node_bounds(ts, i + 1);
                lemma_parse_node_spans(ts, i + 1);
                match spec_parse_node(ts, i + 1) {
                    Step::Node(v, e) => {
                        lemma_ordered_mono(ts, i, i + 1);
                        lemma_ordered_mono(ts, i + 1, e - 1);
                    },
                    _ => {},
                }
            },
            TokenView::Open => {
                lemma_parse_bounds(ts, i + 1);
                lemma_parse_nodes_spans(ts, i + 1);
                match spec_parse_nodes(ts, i + 1) {
                    Rep::Done(ch, Some(csp), e) => {
                        lemma_ordered_mono(ts, i, e - 1);
                        let sp = TextSpan::spec_merge(ts[i].1, csp);
                        assert forall|k: int| 0 <= k < ch.len() implies span_within(
                            (#[trigger] ch[k]).span(),
                            sp,
                        ) && spans_covered(ch[k]) by {}
                    },
                    _ => {},
                }
            },
            _ => {},
        }
    }
}

/// The repetition half of the span-nesting proof: every node of the
/// repetition is covered, starts no earlier than the first token, and ends
/// no later than the last consumed token; the closing span, when one was
/// consumed, is the last consumed token's.
pub proof fn lemma_parse_nodes_spans(ts: Seq<(TokenView, TextSpan)>, i: int)
    requires
        0 <= i <= ts.len(),
        spans_ordered(ts),
    ensures
        spec_parse_nodes(ts, i) matches Rep::Done(ch, copt, e2) ==> {
            &&& forall|k: int| 0 <= k < ch.len() ==> spans_covered(#[trigger] ch[k])
            &&& ch.len() > 0 ==> i < e2
            &&& forall|k: int|
                0 <= k < ch.len() ==> ts[i].1.low <= (#[trigger] ch[k]).span().low && ch[
                    k
                ].span().high <= ts[e2 - 1].1.high
            &&& copt matches Some(csp) ==> i < e2 && csp == ts[e2 - 1].1
        },
    decreases ts.len() - i, 2int,
{
    lemma_parse_bounds(ts, i);
    if i < ts.len() {
        lemma_parse_node_bounds(ts, i);
        if ts[i].0 is Comment {
            lemma_parse_bounds(ts, i + 1);
            lemma_parse_nodes_spans(ts, i + 1);
            match spec_parse_nodes(ts, i + 1) {
                Rep::Done(ch, copt, e2) => {
                    if ch.len() > 0 || copt is Some {
                        lemma_ordered_mono(ts, i, i + 1);
                    }
                },
                _ => {},
            }
        } else {
            match spec_parse_node(ts, i) {
                Step::Node(n, e) => {
                    lemma_parse_node_spans(ts, i);
                    if i < e <= ts.len() {
                        lemma_parse_bounds(ts, e);
                        lemma_parse_nodes_spans(ts, e);
                        match spec_parse_nodes(ts, e) {
                            Rep::Done(rest, copt, e2) => {
                                let ch = seq![n] + rest;
                                assert(ch[0] == n);
                                assert forall|k: int| 0 <= k < ch.len() implies spans_covered(
                                    #[trigger] ch[k],
                                ) by {
                                    if k > 0 {
                                        assert(ch[k] == rest[k - 1]);
                                    }
                                }
                                if rest.len() > 0 || copt is Some {
                                    lemma_ordered_mono(ts, i, e);
                                    assert(e < e2);
                                }
                                lemma_ordered_mono(ts, e - 1, e2 - 1);
                                assert forall|k: int| 0 <= k < ch.len() implies ts[i].1.low <= (
                                #[trigger] ch[k]).span().low && ch[k].span().high <= ts[e2
                                    - 1].1.high by {
                                    if k > 0 {
                                        assert(ch[k] == rest[k - 1]);
                                        lemma_ordered_mono(ts, i, e);
                                    }
                                }
                            },
                            _ => {},
                        }
                    }
                },
                _ => {},
            }
        }
    }
}

/// The whole parse of an ordered token stream yields nodes whose spans
/// nest at every depth.
pub proof fn lemma_parse_spans_covered(ts: Seq<(TokenView, TextSpan)>)
    requires
        spans_ordered(ts),
    ensures
        spec_parse(ts) matches Ok(nodes) ==> forall|k: int|
            0 <= k < nodes.len() ==> spans_covered(#[trigger] nodes[k]),
{
    lemma_parse_nodes_spans(ts, 0);
}

/// The tokens the lexer yields are laid out left to right, so parsing them
/// always yields a tree whose spans nest at every depth.
pub proof fn lemma_lexed_spans_covered(s: Seq<u8>)
    requires
        s.len() <= usize::MAX,
    ensures
        crate::lexer::spec_tokens(s, 0) matches Some(ts) ==> {
            &&& spans_ordered(ts)
            &&& spec_parse(ts) matches Ok(nodes) ==> forall|k: int|
                0 <= k < nodes.len() ==> spans_covered(#[trigger] nodes[k])
        },
{
    crate::lexer::lemma_tokens_ordered(s, 0);
    match crate::lexer::spec_tokens(s, 0) {
        Some(ts) => {
            lemma_parse_spans_covered(ts);
        },
        None => {},
    }
}

} // verus!
