//! The preprocessor: line-oriented directive expansion before lexing.
//!
//! A line whose trimmed form is at least five bytes long, begins with `#[{`
//! and ends with `}]` is a candidate directive. The leading `#` is
//! stripped and the rest is lexed, parsed as exactly one expression, and
//! turned into a command: the expression's first child names the command
//! and the remaining children are split into sections at dividers. One
//! command is defined; it resolves a relative path against an injected
//! file set and yields that file's trimmed contents. On any failure the
//! line passes through verbatim with a recorded warning, and processing of
//! the following lines continues unaffected.
//!
//! The file set stands in for the working directory: the host looks up the
//! paths the document asks for and hands their contents in as plain
//! values, so the pass itself stays pure.

use vstd::prelude::*;

use crate::ast::{nodes_view, Ast, Node, NodeView};
use crate::sanitize::{sanitize, spec_sanitize_nodes};
use crate::error::{Error, ErrorView};
use crate::lexer::{copy_range, copy_trimmed, find_line_end, lemma_run_bounds, lex, line_end,
    spec_tokens, trim_range};
use crate::parser::{next_node, parse, spec_parse, spec_parse_node, Step};
use crate::token::tokens_view;
use crate::span::TextSpan;
use crate::token::{Token, TokenView};

verus! {

/// The injected read-file capability: relative paths with the contents the
/// host read for them. Lookup takes the first entry under a path.
#[derive(Debug)]
pub struct FileSet {
    pub entries: Vec<(Vec<u8>, Vec<u8>)>,
}

/// The view of a file set: its path and content pairs in order.
pub open spec fn files_view(entries: Seq<(Vec<u8>, Vec<u8>)>) -> Seq<(Seq<u8>, Seq<u8>)> {
    Seq::new(entries.len(), |k: int| (entries[k].0@, entries[k].1@))
}

/// The contents under the first entry with the given path, if any.
pub open spec fn spec_lookup(fs: Seq<(Seq<u8>, Seq<u8>)>, path: Seq<u8>) -> Option<Seq<u8>>
    decreases fs.len(),
{
    if fs.len() == 0 {
        None
    } else if fs[0].0 == path {
        Some(fs[0].1)
    } else {
        spec_lookup(fs.drop_first(), path)
    }
}

impl View for FileSet {
    type V = Seq<(Seq<u8>, Seq<u8>)>;

    open spec fn view(&self) -> Seq<(Seq<u8>, Seq<u8>)> {
        files_view(self.entries@)
    }
}

impl FileSet {
    /// An empty file set.
    pub fn new() -> (r: FileSet)
        ensures
            r@ == Seq::<(Seq<u8>, Seq<u8>)>::empty(),
    {
        let r = FileSet { entries: Vec::new() };
        proof {
            assert(r@ =~= Seq::<(Seq<u8>, Seq<u8>)>::empty());
        }
        r
    }

    /// Add a path with its contents.
    pub fn add(&mut self, path: Vec<u8>, contents: Vec<u8>)
        ensures
            final(self)@ == old(self)@.push((path@, contents@)),
    {
        let ghost p = path@;
        let ghost c = contents@;
        self.entries.push((path, contents));
        proof {
            assert(self@ =~= old(self)@.push((p, c)));
        }
    }

    /// The contents stored under a path, if any.
    pub fn lookup(&self, path: &Vec<u8>) -> (r: Option<&Vec<u8>>)
        ensures
            match spec_lookup(self@, path@) {
                Some(c) => r matches Some(v) && v@ == c,
                None => r is None,
            },
    {
        let ghost fs = self@;
        proof {
            assert(fs.skip(0) =~= fs);
        }
        let mut j: usize = 0;
        while j < self.entries.len()
            invariant
                j <= self.entries.len(),
                fs == self@,
                fs.len() == self.entries@.len(),
                spec_lookup(fs.skip(j as int), path@) == spec_lookup(fs, path@),
            decreases self.entries.len() - j,
        {
            proof {
                assert(fs[j as int] == (self.entries@[j as int].0@, self.entries@[j as int].1@));
                assert(fs.skip(j as int)[0] == fs[j as int]);
                assert(fs.skip(j as int).drop_first() =~= fs.skip(j + 1));
            }
            if crate::ast::bytes_eq(&self.entries[j].0, path.as_slice()) {
                return Some(&self.entries[j].1);
            }
            j = j + 1;
        }
        proof {
            assert(fs.skip(j as int) =~= Seq::<(Seq<u8>, Seq<u8>)>::empty());
        }
        None
    }
}

/// A diagnostic recorded while preprocessing: the one-based line the
/// failing directive stood on, and what went wrong with it.
#[derive(Debug, PartialEq, Eq)]
pub struct Warning {
    pub line: usize,
    pub error: Error,
}

/// The view of a warning list.
pub open spec fn warnings_view(ws: Seq<Warning>) -> Seq<(int, ErrorView)> {
    Seq::new(ws.len(), |k: int| (ws[k].line as int, ws[k].error@))
}

/// A directive line's payload: the trimmed line without its leading `#`,
/// when the line has the directive shape.
pub open spec fn spec_as_command(line: Seq<u8>) -> Option<Seq<u8>> {
    let t = trim_range(line, 0, line.len() as int);
    if t.len() >= 5 && t[0] == 35 && t[1] == 91 && t[2] == 123 && t[t.len() - 2] == 125 && t[t.len()
        - 1] == 93 {
        Some(t.skip(1))
    } else {
        None
    }
}

/// Convert a single line into a preprocessor command payload: the trimmed
/// line must be at least five bytes, begin with `#[{` and end with `}]`;
/// the `#` is stripped from the result.
pub fn as_preprocessor_command(line: &[u8]) -> (r: Option<Vec<u8>>)
    ensures
        match spec_as_command(line@) {
            Some(expr) => r matches Some(v) && v@ == expr,
            None => r is None,
        },
{
    let t = copy_trimmed(line, 0, line.len());
    if t.len() >= 5 {
        let n = t.len();
        if t[0] == 35 && t[1] == 91 && t[2] == 123 && t[n - 2] == 125 && t[n - 1] == 93 {
            let r = copy_range(t.as_slice(), 1, n);
            proof {
                assert(r@ =~= trim_range(line@, 0, line@.len() as int).skip(1));
            }
            return Some(r);
        }
    }
    None
}

/// The name of the one defined command, as bytes.
pub open spec fn spec_fetch_name() -> Seq<u8> {
    seq![105u8, 110u8, 99u8, 108u8, 117u8, 100u8, 101u8]
}

/// True when a command name is the file-fetching command's name.
fn is_fetch_name(name: &Vec<u8>) -> (r: bool)
    ensures
        r == (name@ == spec_fetch_name()),
{
    if name.len() != 7 {
        proof {
            assert(name@.len() != spec_fetch_name().len());
        }
        return false;
    }
    let r = name[0] == 105 && name[1] == 110 && name[2] == 99 && name[3] == 108 && name[4] == 117
        && name[5] == 100 && name[6] == 101;
    proof {
        if r {
            assert(name@ =~= spec_fetch_name());
        }
    }
    r
}

/// A preprocessor command: its name and its arguments, split into sections
/// at dividers. Built per directive line, evaluated once, discarded.
#[derive(Debug)]
pub struct Command {
    /// The command to run.
    pub name: Vec<u8>,
    /// The arguments, split into sections; empty sections are dropped.
    pub sections: Vec<Vec<Node>>,
}

/// The view of a section list.
pub open spec fn sections_view(secs: Seq<Vec<Node>>) -> Seq<Seq<NodeView>> {
    Seq::new(secs.len(), |k: int| nodes_view(secs[k]@))
}

/// Split the node values from position `i` on into sections at dividers,
/// dropping empty sections, carrying the open section and those finished.
pub open spec fn spec_split(
    ch: Seq<NodeView>,
    i: int,
    cur: Seq<NodeView>,
    acc: Seq<Seq<NodeView>>,
) -> Seq<Seq<NodeView>>
    decreases ch.len() - i when 0 <= i <= ch.len()
{
    if i >= ch.len() {
        if cur.len() > 0 {
            acc.push(cur)
        } else {
            acc
        }
    } else if ch[i] is Divider {
        spec_split(
            ch,
            i + 1,
            Seq::empty(),
            if cur.len() > 0 {
                acc.push(cur)
            } else {
                acc
            },
        )
    } else {
        spec_split(ch, i + 1, cur.push(ch[i]), acc)
    }
}

/// What a command is made of, when the node has the command shape: an
/// expression whose first child is a text node. The name is that child's
/// content; the remaining children are split into sections.
pub open spec fn spec_command(n: NodeView) -> Option<(Seq<u8>, Seq<Seq<NodeView>>)> {
    match n {
        NodeView::Expression(_, ch) => {
            if ch.len() > 0 && ch[0] is Text {
                Some((ch[0].as_text().unwrap(), spec_split(ch, 1, Seq::empty(), Seq::empty())))
            } else {
                None
            }
        },
        _ => None,
    }
}

impl Command {
    /// Construct a command from a parsed node: an expression whose first
    /// child is a text node naming the command; everything after it is
    /// split into sections at dividers, and empty sections are dropped.
    pub fn new(ast: Node) -> (r: Result<Command, Error>)
        ensures
            match spec_command(ast@) {
                Some(parts) => {
                    &&& r matches Ok(c)
                    &&& c.name@ == parts.0
                    &&& sections_view(c.sections@) == parts.1
                },
                None => r matches Err(e) && e@ == ErrorView::ParseFailure(None),
            },
    {
        let ghost av = ast@;
        let mut values = match ast {
            Node::Expression(_, e) => e.repr,
            _ => {
                return Err(Error::ParseFailure(None));
            },
        };
        let ghost ch0 = nodes_view(values@);
        proof {
            crate::ast::lemma_nodes_view_elts(values@);
            assert(av matches NodeView::Expression(_, c) && c == ch0);
        }
        if values.len() == 0 {
            return Err(Error::ParseFailure(None));
        }
        proof {
            assert(ch0[0] == values@[0]@);
        }
        let ghost values_before = values@;
        let first = values.remove(0);
        proof {
            assert(first == values_before[0]);
        }
        let name = match first {
            Node::Text(_, s) => s,
            _ => {
                return Err(Error::ParseFailure(None));
            },
        };
        let ghost rest0 = values@;
        proof {
            crate::ast::lemma_nodes_view_elts(rest0);
            assert forall|i: int| 0 <= i < rest0.len() implies rest0[i]@ == ch0[i + 1] by {
                assert(rest0[i] == values_before[i + 1]);
                assert(ch0[i + 1] == values_before[i + 1]@);
            }
        }
        let mut cur: Vec<Node> = Vec::new();
        let mut secs: Vec<Vec<Node>> = Vec::new();
        let mut j: usize = 0;
        proof {
            assert(nodes_view(cur@) =~= Seq::<NodeView>::empty());
            assert(sections_view(secs@) =~= Seq::<Seq<NodeView>>::empty());
        }
        while values.len() > 0
            invariant
                j + values@.len() == rest0.len(),
                rest0.len() <= usize::MAX,
                1 + rest0.len() == ch0.len(),
                av matches NodeView::Expression(_, c) && c == ch0,
                ch0[0].as_text() == Some(name@),
                values@ =~= rest0.subrange(j as int, rest0.len() as int),
                forall|i: int| 0 <= i < rest0.len() ==> (#[trigger] rest0[i])@ == ch0[i + 1],
                spec_split(ch0, 1 + j as int, nodes_view(cur@), sections_view(secs@))
                    == spec_split(ch0, 1, Seq::empty(), Seq::empty()),
            decreases values@.len(),
        {
            let ghost cv = nodes_view(cur@);
            let ghost sv = sections_view(secs@);
            let ghost values_pre = values@;
            let n = values.remove(0);
            proof {
                assert(n == values_pre[0]);
                assert(values_pre[0] == rest0[j as int]);
                assert(n@ == ch0[1 + j as int]);
            }
            let is_div = match &n {
                Node::Divider(_) => true,
                _ => false,
            };
            if is_div {
                if cur.len() > 0 {
                    proof {
                        crate::ast::lemma_nodes_view_elts(cur@);
                    }
                    let done = cur;
                    cur = Vec::new();
                    let ghost sv_pre = sections_view(secs@);
                    secs.push(done);
                    proof {
                        assert(nodes_view(cur@) =~= Seq::<NodeView>::empty());
                        assert forall|i: int| 0 <= i < secs@.len() implies sections_view(secs@)[i]
                            == sv_pre.push(cv)[i] by {
                            if i < secs@.len() - 1 {
                                assert(secs@[i] == secs@.drop_last()[i]);
                            }
                        }
                        assert(sections_view(secs@) =~= sv_pre.push(cv));
                    }
                } else {
                    proof {
                        assert(cv.len() == 0);
                    }
                }
            } else {
                let ghost cv_pre = nodes_view(cur@);
                let ghost cb = cur@;
                let ghost moved = n;
                cur.push(n);
                proof {
                    crate::ast::lemma_nodes_view_push(cb, moved);
                    assert(cur@ == cb.push(moved));
                    assert(nodes_view(cur@) == cv_pre.push(ch0[1 + j as int]));
                }
            }
            j = j + 1;
        }
        proof {
            crate::ast::lemma_nodes_view_elts(cur@);
        }
        if cur.len() > 0 {
            let ghost cv = nodes_view(cur@);
            let ghost sv_pre = sections_view(secs@);
            proof {
                assert(cv.len() > 0);
                assert(spec_split(ch0, 1 + j as int, cv, sv_pre) == sv_pre.push(cv));
            }
            secs.push(cur);
            proof {
                assert forall|i: int| 0 <= i < secs@.len() implies sections_view(secs@)[i]
                    == sv_pre.push(cv)[i] by {
                    if i < secs@.len() - 1 {
                        assert(secs@[i] == secs@.drop_last()[i]);
                    }
                }
                assert(sections_view(secs@) =~= sv_pre.push(cv));
            }
        }
        proof {
            assert(values@.len() == 0);
            assert(1 + j as int == ch0.len());
            assert(spec_command(av) matches Some(parts) && parts.0 == name@ && parts.1
                == sections_view(secs@));
        }
        Ok(Command { name, sections: secs })
    }
}

/// The file-set view behind an optional injected working directory.
pub open spec fn opt_files_view(files: Option<&FileSet>) -> Option<Seq<(Seq<u8>, Seq<u8>)>> {
    match files {
        Some(f) => Some(f@),
        None => None,
    }
}

/// The relative path a section child carries: the content of a text node,
/// or of the text node a property directly wraps.
pub open spec fn spec_path_text(n: NodeView) -> Option<Seq<u8>> {
    match n {
        NodeView::Text(_, c) => Some(c),
        NodeView::Property(_, _, v) => match *v {
            NodeView::Text(_, c) => Some(c),
            _ => None,
        },
        _ => None,
    }
}

/// What the file-fetching command yields: with no working directory it
/// fails; its arguments must be exactly one section holding exactly one
/// path-bearing node, the relative path; a path the file set lacks is an
/// input/output failure; otherwise the file's trimmed contents.
pub open spec fn spec_eval_fetch(
    secs: Seq<Seq<NodeView>>,
    fs: Option<Seq<(Seq<u8>, Seq<u8>)>>,
) -> Result<Seq<u8>, ErrorView> {
    match fs {
        None => Err(ErrorView::EvaluationFailure),
        Some(entries) => {
            if secs.len() == 1 && secs[0].len() == 1 && spec_path_text(secs[0][0]) is Some {
                match spec_lookup(entries, spec_path_text(secs[0][0]).unwrap()) {
                    Some(c) => Ok(trim_range(c, 0, c.len() as int)),
                    None => Err(ErrorView::Io),
                }
            } else {
                Err(ErrorView::EvaluationFailure)
            }
        },
    }
}

/// What evaluating a command yields: only the file-fetching command is
/// defined; any other name is an evaluation failure.
pub open spec fn spec_eval(
    name: Seq<u8>,
    secs: Seq<Seq<NodeView>>,
    fs: Option<Seq<(Seq<u8>, Seq<u8>)>>,
) -> Result<Seq<u8>, ErrorView> {
    if name == spec_fetch_name() {
        spec_eval_fetch(secs, fs)
    } else {
        Err(ErrorView::EvaluationFailure)
    }
}

/// The relative path a section child carries, if any.
fn path_text(n: &Node) -> (r: Option<&Vec<u8>>)
    ensures
        match spec_path_text(n@) {
            Some(c) => r matches Some(v) && v@ == c,
            None => r is None,
        },
{
    match n {
        Node::Text(_, c) => Some(c),
        Node::Property(_, _, v) => {
            proof {
                assert(n@ matches NodeView::Property(_, _, bv) && *bv == (**v)@);
            }
            match &**v {
                Node::Text(_, c) => {
                    proof {
                        assert((**v)@ matches NodeView::Text(_, cc) && cc == c@);
                    }
                    Some(c)
                },
                _ => {
                    proof {
                        assert(!((**v)@ is Text));
                    }
                    None
                },
            }
        },
        _ => None,
    }
}

impl Command {
    /// Evaluate the command against the injected file set; `None` models a
    /// missing working directory.
    pub fn eval(self, files: Option<&FileSet>) -> (r: Result<Vec<u8>, Error>)
        ensures
            match spec_eval(self.name@, sections_view(self.sections@), opt_files_view(files)) {
                Ok(c) => r matches Ok(v) && v@ == c,
                Err(ev) => r matches Err(e) && e@ == ev,
            },
    {
        if is_fetch_name(&self.name) {
            self.eval_fetch(files)
        } else {
            Err(Error::EvaluationFailure)
        }
    }

    /// Evaluate the file-fetching command: resolve the single path
    /// argument against the file set and yield that file's trimmed
    /// contents.
    pub fn eval_fetch(self, files: Option<&FileSet>) -> (r: Result<Vec<u8>, Error>)
        ensures
            match spec_eval_fetch(sections_view(self.sections@), opt_files_view(files)) {
                Ok(c) => r matches Ok(v) && v@ == c,
                Err(ev) => r matches Err(e) && e@ == ev,
            },
    {
        let f = match files {
            Some(f) => f,
            None => {
                return Err(Error::EvaluationFailure);
            },
        };
        let ghost secs = sections_view(self.sections@);
        if self.sections.len() == 1 {
            proof {
                assert(secs[0] == nodes_view(self.sections@[0]@));
                crate::ast::lemma_nodes_view_elts(self.sections@[0]@);
            }
            if self.sections[0].len() == 1 {
                proof {
                    assert(secs[0][0] == self.sections@[0]@[0]@);
                }
                match path_text(&self.sections[0][0]) {
                    Some(path) => {
                        match f.lookup(path) {
                            Some(contents) => {
                                let trimmed = copy_trimmed(
                                    contents.as_slice(),
                                    0,
                                    contents.len(),
                                );
                                return Ok(trimmed);
                            },
                            None => {
                                return Err(Error::Io);
                            },
                        }
                    },
                    None => {
                        return Err(Error::EvaluationFailure);
                    },
                }
            }
        }
        Err(Error::EvaluationFailure)
    }
}

/// What evaluating one directive payload yields: lex it, parse exactly one
/// node, read it as a command, and evaluate that.
pub open spec fn spec_evaluate(
    src: Seq<u8>,
    fs: Option<Seq<(Seq<u8>, Seq<u8>)>>,
) -> Result<Seq<u8>, ErrorView> {
    match spec_tokens(src, 0) {
        None => Err(ErrorView::LexFailure),
        Some(ts) => match spec_parse_node(ts, 0) {
            Step::Node(n, _) => match spec_command(n) {
                Some(parts) => spec_eval(parts.0, parts.1, fs),
                None => Err(ErrorView::ParseFailure(None)),
            },
            Step::CloseTok(_, _) => Err(ErrorView::ParseFailure(None)),
            Step::End => Err(ErrorView::ParseFailure(None)),
            Step::Fail(f) => Err(ErrorView::ParseFailure(f)),
        },
    }
}

/// Evaluate a single directive payload, the line with its leading `#`
/// already stripped.
pub fn evaluate_command(source: &[u8], files: Option<&FileSet>) -> (r: Result<Vec<u8>, Error>)
    ensures
        match spec_evaluate(source@, opt_files_view(files)) {
            Ok(c) => r matches Ok(v) && v@ == c,
            Err(ev) => r matches Err(e) && e@ == ev,
        },
{
    let tokens = match lex(source) {
        Ok(t) => t,
        Err(e) => {
            return Err(e);
        },
    };
    let (step, _) = next_node(&tokens, 0);
    match step {
        Ok(Some(node)) => {
            match Command::new(node) {
                Ok(c) => c.eval(files),
                Err(e) => Err(e),
            }
        },
        Ok(None) => Err(Error::ParseFailure(None)),
        Err(e) => Err(e),
    }
}

/// One preprocessed line: what it contributes to the output, and the
/// warning it raises, if any.
pub open spec fn spec_line_step(
    line: Seq<u8>,
    lineno: int,
    fs: Option<Seq<(Seq<u8>, Seq<u8>)>>,
) -> (Seq<u8>, Option<(int, ErrorView)>) {
    match spec_as_command(line) {
        Some(expr) => match spec_evaluate(expr, fs) {
            Ok(out) => (out, None),
            Err(err) => (line, Some((lineno, err))),
        },
        None => (line, None),
    }
}

/// The preprocessed text and warnings from position `i` on. Lines end at
/// line feeds; a carriage return before the line feed is not part of the
/// line; every line, directive output included, is followed by one line
/// feed in the output.
pub open spec fn spec_preprocess_from(
    src: Seq<u8>,
    i: int,
    lineno: int,
    fs: Option<Seq<(Seq<u8>, Seq<u8>)>>,
) -> (Seq<u8>, Seq<(int, ErrorView)>)
    decreases src.len() - i when 0 <= i <= src.len() via spec_preprocess_decreases
{
    if i >= src.len() {
        (Seq::empty(), Seq::empty())
    } else {
        let e = line_end(src, i);
        let le = if e > i && src[e - 1] == 13 {
            e - 1
        } else {
            e
        };
        let line = src.subrange(i, le);
        let step = spec_line_step(line, lineno, fs);
        let next = if e < src.len() {
            e + 1
        } else {
            e
        };
        let rest = spec_preprocess_from(src, next, lineno + 1, fs);
        (
            step.0 + seq![10u8] + rest.0,
            match step.1 {
                Some(w) => seq![w] + rest.1,
                None => rest.1,
            },
        )
    }
}

#[via_fn]
proof fn spec_preprocess_decreases(
    src: Seq<u8>,
    i: int,
    lineno: int,
    fs: Option<Seq<(Seq<u8>, Seq<u8>)>>,
) {
    if 0 <= i < src.len() {
        lemma_run_bounds(src, i);
    }
}

/// Read through a document, expanding any directive lines against the
/// injected file set. Every line of the output ends with a line feed; a
/// failing directive passes through as literal text and leaves a warning
/// carrying its one-based line number, and later lines are unaffected.
pub fn preprocess(source: &[u8], files: Option<&FileSet>) -> (r: (Vec<u8>, Vec<Warning>))
    requires
        source.len() < usize::MAX,
    ensures
        ({
            let sp = spec_preprocess_from(source@, 0, 1, opt_files_view(files));
            r.0@ == sp.0 && warnings_view(r.1@) == sp.1
        }),
{
    let ghost fsv = opt_files_view(files);
    let mut out: Vec<u8> = Vec::new();
    let mut warnings: Vec<Warning> = Vec::new();
    let mut i: usize = 0;
    let mut lineno: usize = 1;
    proof {
        assert(warnings_view(warnings@) =~= Seq::<(int, ErrorView)>::empty());
        assert(spec_preprocess_from(source@, 0, 1, fsv).0 =~= out@ + spec_preprocess_from(
            source@,
            0,
            1,
            fsv,
        ).0);
        assert(spec_preprocess_from(source@, 0, 1, fsv).1 =~= warnings_view(warnings@)
            + spec_preprocess_from(source@, 0, 1, fsv).1);
    }
    while i < source.len()
        invariant
            i <= source.len(),
            source.len() < usize::MAX,
            1 <= lineno,
            lineno <= i + 1,
            fsv == opt_files_view(files),
            spec_preprocess_from(source@, 0, 1, fsv).0 == out@ + spec_preprocess_from(
                source@,
                i as int,
                lineno as int,
                fsv,
            ).0,
            spec_preprocess_from(source@, 0, 1, fsv).1 == warnings_view(warnings@)
                + spec_preprocess_from(source@, i as int, lineno as int, fsv).1,
        decreases source.len() - i,
    {
        let ghost rest = spec_preprocess_from(source@, i as int, lineno as int, fsv);
        let e = find_line_end(source, i);
        let le: usize = if e > i && source[e - 1] == 13 {
            e - 1
        } else {
            e
        };
        let ghost linev = source@.subrange(i as int, le as int);
        let ghost step = spec_line_step(linev, lineno as int, fsv);
        let line = copy_range(source, i, le);
        let mut piece: Vec<u8> = match as_preprocessor_command(line.as_slice()) {
            Some(expr) => {
                match evaluate_command(expr.as_slice(), files) {
                    Ok(outp) => outp,
                    Err(err) => {
                        let ghost wv_pre = warnings_view(warnings@);
                        let ghost errv = err@;
                        warnings.push(Warning { line: lineno, error: err });
                        proof {
                            assert forall|k: int| 0 <= k < warnings@.len() implies warnings_view(
                                warnings@,
                            )[k] == wv_pre.push((lineno as int, errv))[k] by {
                                if k < warnings@.len() - 1 {
                                    assert(warnings@[k] == warnings@.drop_last()[k]);
                                }
                            }
                            assert(warnings_view(warnings@) =~= wv_pre.push(
                                (lineno as int, errv),
                            ));
                        }
                        line
                    },
                }
            },
            None => line,
        };
        let ghost piecev = piece@;
        proof {
            assert(piecev == step.0);
        }
        out.append(&mut piece);
        out.push(10);
        let next: usize = if e < source.len() {
            e + 1
        } else {
            e
        };
        proof {
            let rest2 = spec_preprocess_from(source@, next as int, lineno + 1, fsv);
            assert(rest.0 == step.0 + seq![10u8] + rest2.0);
            assert(out@ =~= (out@.subrange(0, out@.len() - piecev.len() - 1) + piecev) + seq![
                10u8,
            ]);
            assert(out@ + rest2.0 =~= (out@.subrange(0, out@.len() - piecev.len() - 1)) + rest.0);
            match step.1 {
                Some(w) => {
                    assert(rest.1 == seq![w] + rest2.1);
                    assert(warnings_view(warnings@) + rest2.1 =~= warnings_view(
                        warnings@,
                    ).drop_last() + rest.1);
                },
                None => {
                    assert(rest.1 == rest2.1);
                },
            }
        }
        i = next;
        lineno = lineno + 1;
    }
    proof {
        assert(spec_preprocess_from(source@, i as int, lineno as int, fsv).0
            =~= Seq::<u8>::empty());
        assert(out@ + Seq::<u8>::empty() =~= out@);
        assert(spec_preprocess_from(source@, i as int, lineno as int, fsv).1 =~= Seq::<
            (int, ErrorView),
        >::empty());
        assert(warnings_view(warnings@) + Seq::<(int, ErrorView)>::empty() =~= warnings_view(
            warnings@,
        ));
    }
    (out, warnings)
}

/// What the whole pipeline yields on a source text: preprocess, lex,
/// parse, and sanitize, or the first failure.
pub open spec fn spec_process(src: Seq<u8>, fs: Option<Seq<(Seq<u8>, Seq<u8>)>>) -> Result<
    Seq<NodeView>,
    ErrorView,
> {
    let pre = spec_preprocess_from(src, 0, 1, fs).0;
    match spec_tokens(pre, 0) {
        None => Err(ErrorView::LexFailure),
        Some(ts) => match spec_parse(ts) {
            Ok(nodes) => Ok(spec_sanitize_nodes(nodes)),
            Err(f) => Err(ErrorView::ParseFailure(f)),
        },
    }
}

/// Run a source text through the whole pipeline: preprocess it against the
/// injected file set, lex it, parse it, and sanitize the tree. The
/// warnings the preprocessor collected come back alongside the result
/// either way.
pub fn process(source: &[u8], files: Option<&FileSet>) -> (r: (Result<Ast, Error>, Vec<Warning>))
    requires
        source.len() < usize::MAX,
    ensures
        match spec_process(source@, opt_files_view(files)) {
            Ok(nodes) => r.0 matches Ok(a) && a@ == nodes,
            Err(ev) => r.0 matches Err(e) && e@ == ev,
        },
        warnings_view(r.1@) == spec_preprocess_from(source@, 0, 1, opt_files_view(files)).1,
{
    let (pre, warnings) = preprocess(source, files);
    let tokens = match lex(pre.as_slice()) {
        Ok(t) => t,
        Err(e) => {
            return (Err(e), warnings);
        },
    };
    match parse(&tokens) {
        Ok(ast) => (Ok(sanitize(ast)), warnings),
        Err(e) => (Err(e), warnings),
    }
}

/// The path a directive line asks the host to read, if the line is a
/// well-formed fetch directive; how a host fills the file set before
/// calling `preprocess` or `process`.
pub open spec fn spec_directive_path(line: Seq<u8>) -> Option<Seq<u8>> {
    match spec_as_command(line) {
        None => None,
        Some(expr) => match spec_tokens(expr, 0) {
            None => None,
            Some(ts) => match spec_parse_node(ts, 0) {
                Step::Node(n, _) => match spec_command(n) {
                    Some(parts) => if parts.0 == spec_fetch_name() && parts.1.len() == 1
                        && parts.1[0].len() == 1 && spec_path_text(parts.1[0][0]) is Some {
                        Some(spec_path_text(parts.1[0][0]).unwrap())
                    } else {
                        None
                    },
                    None => None,
                },
                _ => None,
            },
        },
    }
}

/// The path a directive line would fetch, if it is a well-formed fetch
/// directive; hosts use this to learn which files to hand in.
pub fn directive_path(line: &[u8]) -> (r: Option<Vec<u8>>)
    ensures
        match spec_directive_path(line@) {
            Some(p) => r matches Some(v) && v@ == p,
            None => r is None,
        },
{
    let expr = match as_preprocessor_command(line) {
        Some(e) => e,
        None => {
            return None;
        },
    };
    let tokens = match lex(expr.as_slice()) {
        Ok(t) => t,
        Err(_) => {
            return None;
        },
    };
    let (step, _) = next_node(&tokens, 0);
    let node = match step {
        Ok(Some(n)) => n,
        _ => {
            return None;
        },
    };
    let c = match Command::new(node) {
        Ok(c) => c,
        Err(_) => {
            return None;
        },
    };
    if !is_fetch_name(&c.name) {
        return None;
    }
    let ghost secs = sections_view(c.sections@);
    if c.sections.len() == 1 {
        proof {
            assert(secs[0] == nodes_view(c.sections@[0]@));
            crate::ast::lemma_nodes_view_elts(c.sections@[0]@);
        }
        if c.sections[0].len() == 1 {
            proof {
                assert(secs[0][0] == c.sections@[0]@[0]@);
            }
            match path_text(&c.sections[0][0]) {
                Some(path) => {
                    return Some(crate::ast::clone_bytes(path));
                },
                None => {
                    return None;
                },
            }
        }
    }
    None
}

} // verus!
