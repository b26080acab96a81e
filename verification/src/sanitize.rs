//! The sanitizer: a post-parse normalization pass.
//!
//! Runs of consecutive text nodes are coalesced into a single text node
//! whose content joins the originals with single spaces and whose span
//! covers them all. The pass is applied at every nesting level: to the
//! top-level node list, and to the children of every expression and the
//! value of every property below it. Other nodes pass through unchanged and
//! end a run. One pass leaves no two adjacent text nodes anywhere, so a
//! second pass changes nothing.

use vstd::prelude::*;

use crate::ast::{clone_bytes, nodes_view, Ast, Expression, Node, NodeView};
use crate::span::TextSpan;

verus! {

/// The size of a node value: itself plus everything below it. The measure
/// that recursion over trees of node values decreases.
pub open spec fn node_size(n: NodeView) -> nat
    decreases n,
{
    match n {
        NodeView::Expression(_, ch) => 1 + nodes_size(ch),
        NodeView::Property(_, _, v) => 1 + node_size(*v),
        _ => 1,
    }
}

/// The summed size of a sequence of node values.
pub open spec fn nodes_size(s: Seq<NodeView>) -> nat
    decreases s,
{
    if s.len() == 0 {
        0
    } else {
        node_size(s[0]) + nodes_size(s.drop_first())
    }
}

/// Every element weighs no more than the whole sequence.
proof fn lemma_node_size_le(s: Seq<NodeView>, i: int)
    requires
        0 <= i < s.len(),
    ensures
        node_size(s[i]) <= nodes_size(s),
    decreases s.len(),
{
    if i == 0 {
    } else {
        lemma_node_size_le(s.drop_first(), i - 1);
        assert(s.drop_first()[i - 1] == s[i]);
    }
}

/// One folding step of the coalescing pass: append a sanitized node to the
/// accumulator, merging it into the accumulator's last node when both are
/// text.
pub open spec fn san_step(acc: Seq<NodeView>, x: NodeView) -> Seq<NodeView> {
    if acc.len() > 0 && acc.last() is Text && x is Text {
        match (acc.last(), x) {
            (NodeView::Text(sp1, c1), NodeView::Text(sp2, c2)) => acc.drop_last().push(
                NodeView::Text(TextSpan::spec_merge(sp1, sp2), c1 + seq![32u8] + c2),
            ),
            _ => acc.push(x),
        }
    } else {
        acc.push(x)
    }
}

/// Fold the coalescing pass over `s` from position `i`, sanitizing each
/// element and accumulating the result.
pub open spec fn san_fold(acc: Seq<NodeView>, s: Seq<NodeView>, i: int) -> Seq<NodeView>
    decreases nodes_size(s), s.len() - i, 1int
        when 0 <= i <= s.len()
        via san_fold_decreases
{
    if i >= s.len() {
        acc
    } else {
        san_fold(san_step(acc, spec_sanitize_node(s[i])), s, i + 1)
    }
}

#[via_fn]
proof fn san_fold_decreases(acc: Seq<NodeView>, s: Seq<NodeView>, i: int) {
    if 0 <= i < s.len() {
        lemma_node_size_le(s, i);
    }
}

/// A node value with every node list below it coalesced.
pub open spec fn spec_sanitize_node(n: NodeView) -> NodeView
    decreases node_size(n), 0int, 0int,
{
    match n {
        NodeView::Expression(sp, ch) => NodeView::Expression(sp, san_fold(Seq::empty(), ch, 0)),
        NodeView::Property(sp, k, v) => NodeView::Property(
            sp,
            k,
            Box::new(spec_sanitize_node(*v)),
        ),
        other => other,
    }
}

/// A sequence of node values with every run of adjacent text nodes
/// coalesced, at this level and every level below.
pub open spec fn spec_sanitize_nodes(s: Seq<NodeView>) -> Seq<NodeView> {
    san_fold(Seq::empty(), s, 0)
}

/// No two adjacent elements are both text nodes.
pub open spec fn no_adjacent_texts(s: Seq<NodeView>) -> bool {
    forall|k: int|
        0 <= k < s.len() - 1 ==> !((#[trigger] s[k]) is Text && s[k + 1] is Text)
}

/// Every element is a fixed point of the sanitizer.
pub open spec fn all_sanitized(s: Seq<NodeView>) -> bool {
    forall|k: int| 0 <= k < s.len() ==> spec_sanitize_node(#[trigger] s[k]) == s[k]
}

/// Sanitizing a node twice is the same as sanitizing it once, and the fold
/// turns any sanitized accumulator into a sanitized result.
proof fn lemma_fold_good(acc: Seq<NodeView>, s: Seq<NodeView>, i: int)
    requires
        0 <= i <= s.len(),
        no_adjacent_texts(acc),
        all_sanitized(acc),
    ensures
        no_adjacent_texts(san_fold(acc, s, i)),
        all_sanitized(san_fold(acc, s, i)),
    decreases nodes_size(s), s.len() - i, 1int,
{
    if i < s.len() {
        lemma_node_size_le(s, i);
        lemma_sanitize_node_idempotent(s[i]);
        let x = spec_sanitize_node(s[i]);
        let acc2 = san_step(acc, x);
        assert(no_adjacent_texts(acc2) && all_sanitized(acc2)) by {
            if acc.len() > 0 && acc.last() is Text && x is Text {
                match (acc.last(), x) {
                    (NodeView::Text(sp1, c1), NodeView::Text(sp2, c2)) => {
                        let m = NodeView::Text(
                            TextSpan::spec_merge(sp1, sp2),
                            c1 + seq![32u8] + c2,
                        );
                        assert(acc2 == acc.drop_last().push(m));
                        assert forall|k: int| 0 <= k < acc2.len() - 1 implies !((
                        #[trigger] acc2[k]) is Text && acc2[k + 1] is Text) by {
                            assert(acc2[k] == acc[k]);
                            if k + 1 < acc2.len() - 1 {
                                assert(acc2[k + 1] == acc[k + 1]);
                            } else {
                                assert(acc2[k + 1] == m);
                                assert(acc[acc.len() - 1] is Text);
                                assert(!(acc[k] is Text));
                            }
                        }
                        assert forall|k: int| 0 <= k < acc2.len() implies spec_sanitize_node(
                            #[trigger] acc2[k],
                        ) == acc2[k] by {
                            if k < acc2.len() - 1 {
                                assert(acc2[k] == acc[k]);
                            } else {
                                assert(acc2[k] == m);
                            }
                        }
                    },
                    _ => {},
                }
            } else {
                assert forall|k: int| 0 <= k < acc2.len() - 1 implies !((
                #[trigger] acc2[k]) is Text && acc2[k + 1] is Text) by {
                    assert(acc2[k] == acc[k]);
                    if k + 1 < acc2.len() - 1 {
                        assert(acc2[k + 1] == acc[k + 1]);
                    } else {
                        assert(acc2[k + 1] == x);
                        if acc2[k] is Text {
                            assert(acc.last() is Text);
                            assert(!(x is Text));
                        }
                    }
                }
                assert forall|k: int| 0 <= k < acc2.len() implies spec_sanitize_node(
                    #[trigger] acc2[k],
                ) == acc2[k] by {
                    if k < acc2.len() - 1 {
                        assert(acc2[k] == acc[k]);
                    } else {
                        assert(acc2[k] == x);
                    }
                }
            }
        }
        lemma_fold_good(acc2, s, i + 1);
    }
}

/// Folding over a sequence that is already coalesced appends it unchanged.
proof fn lemma_fold_identity(acc: Seq<NodeView>, t: Seq<NodeView>, i: int)
    requires
        0 <= i <= t.len(),
        no_adjacent_texts(t),
        all_sanitized(t),
        acc.len() > 0 && i < t.len() ==> !(acc.last() is Text && t[i] is Text),
    ensures
        san_fold(acc, t, i) == acc + t.subrange(i, t.len() as int),
    decreases t.len() - i,
{
    if i >= t.len() {
        assert(acc + t.subrange(i, t.len() as int) =~= acc);
    } else {
        assert(spec_sanitize_node(t[i]) == t[i]);
        let acc2 = san_step(acc, t[i]);
        assert(acc2 == acc.push(t[i]));
        lemma_fold_identity(acc2, t, i + 1);
        assert(acc.push(t[i]) + t.subrange(i + 1, t.len() as int) =~= acc + t.subrange(
            i,
            t.len() as int,
        ));
    }
}

/// Sanitizing one node is idempotent.
proof fn lemma_sanitize_node_idempotent(n: NodeView)
    ensures
        spec_sanitize_node(spec_sanitize_node(n)) == spec_sanitize_node(n),
    decreases node_size(n), 0int, 0int,
{
    match n {
        NodeView::Expression(sp, ch) => {
            let inner = san_fold(Seq::<NodeView>::empty(), ch, 0);
            lemma_fold_good(Seq::<NodeView>::empty(), ch, 0);
            lemma_fold_identity(Seq::<NodeView>::empty(), inner, 0);
            assert(Seq::<NodeView>::empty() + inner.subrange(0, inner.len() as int) =~= inner);
        },
        NodeView::Property(sp, k, v) => {
            lemma_sanitize_node_idempotent(*v);
        },
        _ => {},
    }
}

/// Sanitization is idempotent: coalescing an already coalesced node list
/// changes nothing.
pub proof fn lemma_sanitize_idempotent(s: Seq<NodeView>)
    ensures
        spec_sanitize_nodes(spec_sanitize_nodes(s)) == spec_sanitize_nodes(s),
{
    let r = san_fold(Seq::<NodeView>::empty(), s, 0);
    lemma_fold_good(Seq::<NodeView>::empty(), s, 0);
    lemma_fold_identity(Seq::<NodeView>::empty(), r, 0);
    assert(Seq::<NodeView>::empty() + r.subrange(0, r.len() as int) =~= r);
}

/// Two adjacent text nodes coalesce into one text node joining their
/// contents with a single space under the merged span.
pub proof fn lemma_adjacent_texts_merge(a: TextSpan, x: Seq<u8>, b: TextSpan, y: Seq<u8>)
    ensures
        spec_sanitize_nodes(seq![NodeView::Text(a, x), NodeView::Text(b, y)]) == seq![
            NodeView::Text(TextSpan::spec_merge(a, b), x + seq![32u8] + y),
        ],
{
    let s = seq![NodeView::Text(a, x), NodeView::Text(b, y)];
    assert(s[0] == NodeView::Text(a, x) && s[1] == NodeView::Text(b, y));
    assert(spec_sanitize_node(s[0]) == s[0] && spec_sanitize_node(s[1]) == s[1]);
    let acc1 = san_step(Seq::<NodeView>::empty(), spec_sanitize_node(s[0]));
    assert(acc1 == Seq::<NodeView>::empty().push(NodeView::Text(a, x)));
    let acc2 = san_step(acc1, spec_sanitize_node(s[1]));
    assert(acc1.last() == NodeView::Text(a, x));
    assert(acc2 == acc1.drop_last().push(
        NodeView::Text(TextSpan::spec_merge(a, b), x + seq![32u8] + y),
    ));
    assert(acc2 =~= seq![NodeView::Text(TextSpan::spec_merge(a, b), x + seq![32u8] + y)]);
    assert(spec_sanitize_nodes(s) == san_fold(acc1, s, 1));
    assert(san_fold(acc1, s, 1) == san_fold(acc2, s, 2));
    assert(san_fold(acc2, s, 2) == acc2);
}

/// Sanitize one node: coalesce text runs in every node list below it.
fn sanitize_node(n: &Node) -> (r: Node)
    ensures
        r@ == spec_sanitize_node(n@),
    decreases node_size(n@), 0int,
{
    match n {
        Node::Expression(sp, e) => {
            proof {
                assert(node_size(n@) == 1 + nodes_size(nodes_view(e.repr@)));
            }
            let repr = sanitize_vec(&e.repr);
            Node::Expression(*sp, Expression { repr })
        },
        Node::Property(sp, k, v) => {
            proof {
                assert(node_size(n@) == 1 + node_size((**v)@));
            }
            let inner = sanitize_node(&**v);
            Node::Property(*sp, clone_bytes(k), Box::new(inner))
        },
        Node::Divider(sp) => Node::Divider(*sp),
        Node::EmptyLines(sp) => Node::EmptyLines(*sp),
        Node::Variable(sp, s) => Node::Variable(*sp, clone_bytes(s)),
        Node::Text(sp, s) => Node::Text(*sp, clone_bytes(s)),
    }
}

/// Coalesce runs of adjacent text nodes in a node list, sanitizing each
/// element, at this level and every level below.
fn sanitize_vec(v: &Vec<Node>) -> (r: Vec<Node>)
    ensures
        nodes_view(r@) == spec_sanitize_nodes(nodes_view(v@)),
    decreases nodes_size(nodes_view(v@)), 1int,
{
    let ghost s0 = nodes_view(v@);
    proof {
        crate::ast::lemma_nodes_view_elts(v@);
    }
    let mut acc: Vec<Node> = Vec::new();
    let mut k: usize = 0;
    while k < v.len()
        invariant
            k <= v.len(),
            s0 == nodes_view(v@),
            s0.len() == v@.len(),
            forall|j: int| 0 <= j < v@.len() ==> s0[j] == #[trigger] v@[j]@,
            san_fold(nodes_view(acc@), s0, k as int) == san_fold(Seq::empty(), s0, 0),
        decreases v.len() - k,
    {
        proof {
            lemma_node_size_le(s0, k as int);
        }
        let sn = sanitize_node(&v[k]);
        let ghost x = sn@;
        let ghost acc_pre = nodes_view(acc@);
        proof {
            crate::ast::lemma_nodes_view_elts(acc@);
            assert(x == spec_sanitize_node(s0[k as int]));
        }
        let merge_texts = if acc.len() > 0 {
            match (&acc[acc.len() - 1], &sn) {
                (Node::Text(_, _), Node::Text(_, _)) => true,
                _ => false,
            }
        } else {
            false
        };
        if merge_texts {
            let ghost acc_before = acc@;
            proof {
                assert(acc_pre[acc_before.len() - 1] == acc_before[acc_before.len() - 1]@);
            }
            let last = acc.pop();
            match (last, sn) {
                (Some(Node::Text(sp1, c1)), Node::Text(sp2, c2)) => {
                    let ghost c1v = c1@;
                    let ghost c2v = c2@;
                    let mut joined = c1;
                    joined.push(32);
                    let mut tail = c2;
                    joined.append(&mut tail);
                    acc.push(Node::Text(TextSpan::merge(sp1, sp2), joined));
                    proof {
                        crate::ast::lemma_nodes_view_elts(acc@);
                        assert(joined@ =~= c1v + seq![32u8] + c2v);
                        assert(acc_pre.last() == NodeView::Text(sp1, c1v));
                        assert(x == NodeView::Text(sp2, c2v));
                        let m = NodeView::Text(
                            TextSpan::spec_merge(sp1, sp2),
                            c1v + seq![32u8] + c2v,
                        );
                        assert(san_step(acc_pre, x) == acc_pre.drop_last().push(m));
                        assert forall|j: int| 0 <= j < acc@.len() implies nodes_view(acc@)[j]
                            == san_step(acc_pre, x)[j] by {
                            assert(nodes_view(acc@)[j] == acc@[j]@);
                            if j < acc@.len() - 1 {
                                assert(acc@[j] == acc_before[j]);
                                assert(acc_pre[j] == acc_before[j]@);
                            } else {
                                assert(acc@[j]@ == m);
                            }
                        }
                        assert(nodes_view(acc@) =~= san_step(acc_pre, x));
                    }
                },
                _ => {
                    proof {
                        assert(false);
                    }
                },
            }
        } else {
            acc.push(sn);
            proof {
                crate::ast::lemma_nodes_view_elts(acc@);
                assert(!(acc_pre.len() > 0 && acc_pre.last() is Text && x is Text)) by {
                    if acc_pre.len() > 0 {
                        assert(acc_pre[acc_pre.len() - 1] == acc@[acc_pre.len() - 1]@);
                    }
                }
                assert forall|j: int| 0 <= j < acc@.len() implies nodes_view(acc@)[j] == san_step(
                    acc_pre,
                    x,
                )[j] by {
                    assert(nodes_view(acc@)[j] == acc@[j]@);
                    if j < acc@.len() - 1 {
                        assert(acc_pre[j] == acc@[j]@);
                    }
                }
                assert(nodes_view(acc@) =~= san_step(acc_pre, x));
            }
        }
        k = k + 1;
    }
    acc
}

/// Sanitize a freshly parsed tree: coalesce every run of adjacent text
/// nodes, at the top level and inside every nested expression, joining
/// contents with single spaces and merging spans.
pub fn sanitize(ast: Ast) -> (r: Ast)
    ensures
        r@ == spec_sanitize_nodes(ast@),
{
    let repr = sanitize_vec(&ast.repr);
    Ast { repr }
}

} // verus!
