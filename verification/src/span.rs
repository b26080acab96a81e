//! Byte-offset spans into a source buffer.

use vstd::prelude::*;

verus! {

/// A half-open byte-offset range `[low, high)` into the original source.
///
/// Spans are attached to every token and every syntax-tree node so that
/// diagnostics can point back at the text they came from.
#[derive(Debug, Copy, Clone, PartialEq, Eq, Structural)]
pub struct TextSpan {
    pub low: usize,
    pub high: usize,
}

impl TextSpan {
    /// A span is well formed when it does not end before it starts.
    pub open spec fn wf(self) -> bool {
        self.low <= self.high
    }

    /// Compute the span of a token from the source buffer, the suffix that
    /// remains after the token, and the token's own text: the token ends
    /// where the remaining suffix begins.
    pub fn from(source: &[u8], remaining: &[u8], token: &[u8]) -> (r: TextSpan)
        requires
            token.len() + remaining.len() <= source.len(),
        ensures
            r.high == source.len() - remaining.len(),
            r.low == source.len() - remaining.len() - token.len(),
            r.wf(),
    {
        let high = source.len() - remaining.len();
        let low = high - token.len();
        TextSpan { low, high }
    }

    /// The smallest span covering both `a` and `b`.
    pub fn merge(a: TextSpan, b: TextSpan) -> (r: TextSpan)
        ensures
            r == TextSpan::spec_merge(a, b),
    {
        let low = if a.low < b.low {
            a.low
        } else {
            b.low
        };
        let high = if a.high > b.high {
            a.high
        } else {
            b.high
        };
        TextSpan { low, high }
    }

    /// What `merge` returns: the least lower bound and the greatest upper
    /// bound of the two spans.
    pub open spec fn spec_merge(a: TextSpan, b: TextSpan) -> TextSpan {
        TextSpan {
            low: if a.low < b.low {
                a.low
            } else {
                b.low
            },
            high: if a.high > b.high {
                a.high
            } else {
                b.high
            },
        }
    }
}

/// Merging is commutative: the covering span does not depend on the order
/// of its arguments.
pub proof fn lemma_merge_commutative(a: TextSpan, b: TextSpan)
    ensures
        TextSpan::spec_merge(a, b) == TextSpan::spec_merge(b, a),
{
}

/// Merging is associative: covering three spans gives the same result
/// whichever pair is merged first.
pub proof fn lemma_merge_associative(a: TextSpan, b: TextSpan, c: TextSpan)
    ensures
        TextSpan::spec_merge(TextSpan::spec_merge(a, b), c) == TextSpan::spec_merge(
            a,
            TextSpan::spec_merge(b, c),
        ),
{
}

/// Merging is idempotent: a span merged with itself is itself.
pub proof fn lemma_merge_idempotent(s: TextSpan)
    ensures
        TextSpan::spec_merge(s, s) == s,
{
}

} // verus!
