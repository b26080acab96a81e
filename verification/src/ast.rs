//! The span-annotated syntax tree produced by the parser.

use vstd::prelude::*;

use crate::span::TextSpan;
use crate::token::Token;

verus! {

/// The top-level parse result: zero or more sibling nodes.
///
/// Multiple siblings occur when the source is not itself wrapped in one
/// enclosing bracket pair.
#[derive(Debug, PartialEq, Eq)]
pub struct Ast {
    pub repr: Vec<Node>,
}

/// One node of the syntax tree; every variant carries its source span.
#[derive(Debug, PartialEq, Eq)]
pub enum Node {
    /// A bracketed group of sibling nodes.
    Expression(TextSpan, Expression),
    /// A section separator.
    Divider(TextSpan),
    /// A blank-line marker.
    EmptyLines(TextSpan),
    /// A variable reference.
    Variable(TextSpan, Vec<u8>),
    /// A run of literal text.
    Text(TextSpan, Vec<u8>),
    /// A key-tagged wrapper around exactly one child node.
    Property(TextSpan, Vec<u8>, Box<Node>),
}

/// The ordered children of a bracketed group.
#[derive(Debug, PartialEq, Eq)]
pub struct Expression {
    pub repr: Vec<Node>,
}

/// The mathematical value of a node: the same shape over sequences.
pub enum NodeView {
    Expression(TextSpan, Seq<NodeView>),
    Divider(TextSpan),
    EmptyLines(TextSpan),
    Variable(TextSpan, Seq<u8>),
    Text(TextSpan, Seq<u8>),
    Property(TextSpan, Seq<u8>, Box<NodeView>),
}

impl View for Node {
    type V = NodeView;

    open spec fn view(&self) -> NodeView
        decreases self,
    {
        match self {
            Node::Expression(span, e) => NodeView::Expression(*span, nodes_view(e.repr@)),
            Node::Divider(span) => NodeView::Divider(*span),
            Node::EmptyLines(span) => NodeView::EmptyLines(*span),
            Node::Variable(span, s) => NodeView::Variable(*span, s@),
            Node::Text(span, s) => NodeView::Text(*span, s@),
            Node::Property(span, k, v) => NodeView::Property(*span, k@, Box::new((**v)@)),
        }
    }
}

/// The values of a sequence of nodes, element by element.
pub open spec fn nodes_view(s: Seq<Node>) -> Seq<NodeView>
    decreases s,
{
    if s.len() == 0 {
        Seq::empty()
    } else {
        seq![s[0]@] + nodes_view(s.subrange(1, s.len() as int))
    }
}

/// `nodes_view` maps the sequence pointwise: it keeps the length and takes
/// the value of each element in place.
pub proof fn lemma_nodes_view_elts(s: Seq<Node>)
    ensures
        nodes_view(s).len() == s.len(),
        forall|i: int| 0 <= i < s.len() ==> nodes_view(s)[i] == #[trigger] s[i]@,
    decreases s.len(),
{
    if s.len() > 0 {
        let tail = s.subrange(1, s.len() as int);
        lemma_nodes_view_elts(tail);
        assert(nodes_view(s) == seq![s[0]@] + nodes_view(tail));
        assert forall|i: int| 0 <= i < s.len() implies nodes_view(s)[i] == #[trigger] s[i]@ by {
            if i > 0 {
                assert(nodes_view(s)[i] == nodes_view(tail)[i - 1]);
                assert(tail[i - 1] == s[i]);
            }
        }
    }
}

/// Appending one node to a sequence appends its value to the sequence's value.
pub proof fn lemma_nodes_view_push(s: Seq<Node>, n: Node)
    ensures
        nodes_view(s.push(n)) == nodes_view(s).push(n@),
{
    lemma_nodes_view_elts(s);
    lemma_nodes_view_elts(s.push(n));
    assert forall|i: int| 0 <= i < s.len() + 1 implies nodes_view(s.push(n))[i] == nodes_view(
        s,
    ).push(n@)[i] by {
        assert(nodes_view(s.push(n))[i] == s.push(n)[i]@);
        if i < s.len() {
            assert(s.push(n)[i] == s[i]);
        } else {
            assert(s.push(n)[i] == n);
        }
    }
    assert(nodes_view(s.push(n)) =~= nodes_view(s).push(n@));
}

impl View for Ast {
    type V = Seq<NodeView>;

    open spec fn view(&self) -> Seq<NodeView> {
        nodes_view(self.repr@)
    }
}

impl NodeView {
    /// The span a node value carries.
    pub open spec fn span(self) -> TextSpan {
        match self {
            NodeView::Expression(span, _) => span,
            NodeView::Divider(span) => span,
            NodeView::EmptyLines(span) => span,
            NodeView::Variable(span, _) => span,
            NodeView::Text(span, _) => span,
            NodeView::Property(span, _, _) => span,
        }
    }
}

impl Node {
    /// The source span this node carries.
    pub fn span(&self) -> (r: TextSpan)
        ensures
            r == self@.span(),
    {
        match self {
            Node::Expression(span, _) => *span,
            Node::Divider(span) => *span,
            Node::EmptyLines(span) => *span,
            Node::Variable(span, _) => *span,
            Node::Text(span, _) => *span,
            Node::Property(span, _, _) => *span,
        }
    }

    /// Build an expression node from its children.
    pub fn expr(span: TextSpan, repr: Vec<Node>) -> (r: Node)
        ensures
            r@ == NodeView::Expression(span, nodes_view(repr@)),
    {
        Node::Expression(span, Expression { repr })
    }

    /// Build a divider node.
    pub fn div(span: TextSpan) -> (r: Node)
        ensures
            r@ == NodeView::Divider(span),
    {
        Node::Divider(span)
    }

    /// Build a blank-line node.
    pub fn empty(span: TextSpan) -> (r: Node)
        ensures
            r@ == NodeView::EmptyLines(span),
    {
        Node::EmptyLines(span)
    }

    /// Build a variable node from a content-bearing token.
    pub fn var(span: TextSpan, txt: Token) -> (r: Node)
        requires
            txt@.contents() is Some,
        ensures
            r@ == NodeView::Variable(span, txt@.contents().unwrap()),
    {
        match txt {
            Token::Quote(s) => Node::Variable(span, s),
            Token::Comment(s) => Node::Variable(span, s),
            Token::Word(s) => Node::Variable(span, s),
            Token::Key(s) => Node::Variable(span, s),
            Token::Var(s) => Node::Variable(span, s),
            _ => vstd::pervasive::unreached(),
        }
    }

    /// Build a text node from a content-bearing token.
    pub fn txt(span: TextSpan, txt: Token) -> (r: Node)
        requires
            txt@.contents() is Some,
        ensures
            r@ == NodeView::Text(span, txt@.contents().unwrap()),
    {
        match txt {
            Token::Quote(s) => Node::Text(span, s),
            Token::Comment(s) => Node::Text(span, s),
            Token::Word(s) => Node::Text(span, s),
            Token::Key(s) => Node::Text(span, s),
            Token::Var(s) => Node::Text(span, s),
            _ => vstd::pervasive::unreached(),
        }
    }

    /// Build a property node from a content-bearing key token and its value.
    pub fn prop(span: TextSpan, key: Token, value: Node) -> (r: Node)
        requires
            key@.contents() is Some,
        ensures
            r@ == NodeView::Property(span, key@.contents().unwrap(), Box::new(value@)),
    {
        let k = match key {
            Token::Quote(s) => s,
            Token::Comment(s) => s,
            Token::Word(s) => s,
            Token::Key(s) => s,
            Token::Var(s) => s,
            _ => vstd::pervasive::unreached(),
        };
        Node::Property(span, k, Box::new(value))
    }
}

/// Copy the bytes of a content buffer.
pub(crate) fn clone_bytes(v: &Vec<u8>) -> (r: Vec<u8>)
    ensures
        r@ == v@,
{
    let mut out: Vec<u8> = Vec::new();
    let mut j: usize = 0;
    while j < v.len()
        invariant
            j <= v.len(),
            out@ == v@.subrange(0, j as int),
        decreases v.len() - j,
    {
        out.push(v[j]);
        assert(out@ =~= v@.subrange(0, j + 1 as int));
        j = j + 1;
    }
    assert(out@ =~= v@);
    out
}

/// True when two byte buffers hold the same bytes.
pub(crate) fn bytes_eq(a: &Vec<u8>, b: &[u8]) -> (r: bool)
    ensures
        r == (a@ == b@),
{
    if a.len() != b.len() {
        proof {
            assert(a@.len() != b@.len());
        }
        return false;
    }
    let mut j: usize = 0;
    while j < a.len()
        invariant
            j <= a.len(),
            a@.len() == b@.len(),
            forall|i: int| 0 <= i < j ==> a@[i] == b@[i],
        decreases a.len() - j,
    {
        if a[j] != b[j] {
            return false;
        }
        j = j + 1;
    }
    proof {
        assert(a@ =~= b@);
    }
    true
}

/// The first property value under the given key in a sequence of node
/// values, if any.
pub open spec fn spec_property(ch: Seq<NodeView>, key: Seq<u8>) -> Option<NodeView>
    decreases ch.len(),
{
    if ch.len() == 0 {
        None
    } else {
        match ch[0] {
            NodeView::Property(_, k, v) => if k == key {
                Some(*v)
            } else {
                spec_property(ch.drop_first(), key)
            },
            _ => spec_property(ch.drop_first(), key),
        }
    }
}

/// The position just after the `k`-th divider of `ch`, counting from
/// position `i`, or nothing when the sequence runs out first.
pub open spec fn spec_div_skip(ch: Seq<NodeView>, i: int, k: int) -> Option<int>
    decreases ch.len() - i when 0 <= i <= ch.len()
{
    if k <= 0 {
        Some(i)
    } else if i >= ch.len() {
        None
    } else if ch[i] is Divider {
        spec_div_skip(ch, i + 1, k - 1)
    } else {
        spec_div_skip(ch, i + 1, k)
    }
}

/// Where the section starting at `i` ends: just past the next divider, or
/// at the end of the sequence.
pub open spec fn spec_sec_end(ch: Seq<NodeView>, i: int) -> int
    decreases ch.len() - i when 0 <= i <= ch.len()
{
    if i >= ch.len() {
        ch.len() as int
    } else if ch[i] is Divider {
        i + 1
    } else {
        spec_sec_end(ch, i + 1)
    }
}

impl NodeView {
    /// The text content of a text node value.
    pub open spec fn as_text(self) -> Option<Seq<u8>> {
        match self {
            NodeView::Text(_, c) => Some(c),
            _ => None,
        }
    }

    /// The range of the `k`-th section of an expression's children: from
    /// just after the `k`-th divider to just past the next one.
    pub open spec fn section_range(self, k: int) -> Option<(int, int)> {
        match self {
            NodeView::Expression(_, ch) => match spec_div_skip(ch, 0, k) {
                Some(st) => Some((st, spec_sec_end(ch, st))),
                None => None,
            },
            _ => None,
        }
    }
}

impl Node {
    /// The name of an expression: the content of its first child when that
    /// child is a text node, and nothing otherwise.
    pub fn identity(&self) -> (r: Option<&Vec<u8>>)
        ensures
            match self@ {
                NodeView::Expression(_, ch) => {
                    if ch.len() > 0 && ch[0] is Text {
                        r matches Some(s) && Some(s@) == ch[0].as_text()
                    } else {
                        r is None
                    }
                },
                _ => r is None,
            },
    {
        let children = match self {
            Node::Expression(_, e) => &e.repr,
            _ => {
                return None;
            },
        };
        proof {
            lemma_nodes_view_elts(children@);
            assert(self@ matches NodeView::Expression(_, c) && c == nodes_view(children@));
        }
        if children.len() == 0 {
            None
        } else {
            proof {
                assert(nodes_view(children@)[0] == children@[0]@);
            }
            match &children[0] {
                Node::Text(_, s) => Some(s),
                _ => None,
            }
        }
    }

    /// The text of a text-only node, or nothing.
    pub fn as_text(&self) -> (r: Option<&Vec<u8>>)
        ensures
            r matches Some(s) ==> self@.as_text() == Some(s@),
            r is None <==> self@.as_text() is None,
    {
        match self {
            Node::Text(_, t) => Some(t),
            _ => None,
        }
    }

    /// The value of the first property under the given key among an
    /// expression's children, or nothing.
    pub fn property(&self, key: &[u8]) -> (r: Option<&Node>)
        ensures
            match self@ {
                NodeView::Expression(_, ch) => match spec_property(ch, key@) {
                    Some(v) => r matches Some(n) && n@ == v,
                    None => r is None,
                },
                _ => r is None,
            },
    {
        let children = match self {
            Node::Expression(_, e) => &e.repr,
            _ => {
                return None;
            },
        };
        let ghost ch = nodes_view(children@);
        proof {
            lemma_nodes_view_elts(children@);
            assert(self@ matches NodeView::Expression(_, c) && c == ch);
            assert(ch.skip(0) =~= ch);
        }
        let mut j: usize = 0;
        while j < children.len()
            invariant
                j <= children.len(),
                ch == nodes_view(children@),
                ch.len() == children@.len(),
                self@ matches NodeView::Expression(_, c) && c == ch,
                forall|i: int| 0 <= i < children@.len() ==> ch[i] == #[trigger] children@[i]@,
                spec_property(ch.skip(j as int), key@) == spec_property(ch, key@),
            decreases children.len() - j,
        {
            proof {
                assert(ch[j as int] == children@[j as int]@);
                assert(ch.skip(j as int)[0] == ch[j as int]);
                assert(ch.skip(j as int).drop_first() =~= ch.skip(j + 1));
            }
            match &children[j] {
                Node::Property(_, k, v) => {
                    if bytes_eq(k, key) {
                        proof {
                            assert(ch[j as int] == children@[j as int]@);
                            assert(spec_property(ch.skip(j as int), key@) == Some((**v)@));
                        }
                        return Some(&**v);
                    }
                },
                _ => {},
            }
            j = j + 1;
        }
        proof {
            assert(ch.skip(j as int) =~= Seq::<NodeView>::empty());
        }
        None
    }

    /// The `k`-th section of an expression's children, zero-indexed, a new
    /// section beginning after each divider. A section that another divider
    /// ends includes that divider; the last section runs to the end.
    pub fn section(&self, section: usize) -> (r: Option<&[Node]>)
        ensures
            match self@.section_range(section as int) {
                Some(rng) => {
                    &&& r matches Some(sl)
                    &&& self@ matches NodeView::Expression(_, ch) && nodes_view(sl@)
                        == ch.subrange(rng.0, rng.1)
                },
                None => r is None,
            },
    {
        let children = match self {
            Node::Expression(_, e) => &e.repr,
            _ => {
                return None;
            },
        };
        let ghost ch = nodes_view(children@);
        proof {
            lemma_nodes_view_elts(children@);
            assert(self@ matches NodeView::Expression(_, c) && c == ch);
        }
        let mut start: usize = 0;
        let mut remaining = section;
        while remaining > 0
            invariant
                start <= children.len(),
                ch == nodes_view(children@),
                ch.len() == children@.len(),
                self@ matches NodeView::Expression(_, c) && c == ch,
                forall|i: int| 0 <= i < children@.len() ==> ch[i] == #[trigger] children@[i]@,
                spec_div_skip(ch, start as int, remaining as int) == spec_div_skip(
                    ch,
                    0,
                    section as int,
                ),
            decreases children.len() - start, remaining,
        {
            if start >= children.len() {
                return None;
            }
            proof {
                assert(ch[start as int] == children@[start as int]@);
            }
            match &children[start] {
                Node::Divider(_) => {
                    remaining = remaining - 1;
                },
                _ => {},
            }
            start = start + 1;
        }
        proof {
            assert(spec_div_skip(ch, 0, section as int) == Some(start as int));
        }
        let mut end = start;
        let mut found = false;
        while end < children.len() && !found
            invariant
                start <= end <= children.len(),
                ch == nodes_view(children@),
                ch.len() == children@.len(),
                self@ matches NodeView::Expression(_, c) && c == ch,
                forall|i: int| 0 <= i < children@.len() ==> ch[i] == #[trigger] children@[i]@,
                spec_div_skip(ch, 0, section as int) == Some(start as int),
                !found ==> spec_sec_end(ch, end as int) == spec_sec_end(ch, start as int),
                found ==> spec_sec_end(ch, start as int) == end as int,
            decreases children.len() - end,
        {
            proof {
                assert(ch[end as int] == children@[end as int]@);
            }
            match &children[end] {
                Node::Divider(_) => {
                    found = true;
                },
                _ => {},
            }
            end = end + 1;
        }
        proof {
            assert(spec_sec_end(ch, start as int) == end as int);
        }
        let sl = &children[start..end];
        proof {
            let rng = self@.section_range(section as int).unwrap();
            assert(rng.0 == start as int && rng.1 == end as int);
            lemma_nodes_view_elts(sl@);
            assert forall|i: int| 0 <= i < sl@.len() implies nodes_view(sl@)[i] == ch.subrange(
                start as int,
                end as int,
            )[i] by {
                assert(nodes_view(sl@)[i] == sl@[i]@);
                assert(sl@[i] == children@[start + i]);
            }
            assert(nodes_view(sl@) =~= ch.subrange(start as int, end as int));
        }
        Some(sl)
    }
}

} // verus!
