//! The lexer: repeated longest-match scanning of a byte buffer into tokens.
//!
//! Scanning works over raw bytes; multi-byte characters simply travel inside
//! word, quote and comment content, since every delimiter of the language is
//! a pair of ASCII bytes. The rules, in priority order at each position:
//! quoted string, comment, blank line, the structural pairs `[{` `}]` `||`,
//! key, variable, word, whitespace. Earlier rules win; each rule takes the
//! longest match its own shape allows. A `\r\n` pair, a lone `\n` and a lone
//! `\r` each count as one line break; a blank line is two or more breaks
//! with only horizontal whitespace between them.

use vstd::prelude::*;

use crate::error::Error;
use crate::span::TextSpan;
use crate::token::{tokens_view, Token, TokenView};

verus! {

/// Horizontal whitespace: space or tab.
pub open spec fn is_hws(b: u8) -> bool {
    b == 32 || b == 9
}

/// A line-break byte: line feed or carriage return.
pub open spec fn is_break(b: u8) -> bool {
    b == 10 || b == 13
}

/// Any whitespace byte the lexer skips over.
pub open spec fn is_ws(b: u8) -> bool {
    is_hws(b) || is_break(b)
}

/// The two given bytes stand at position `i`.
pub open spec fn pair_at(s: Seq<u8>, i: int, a: u8, b: u8) -> bool {
    0 <= i && i + 2 <= s.len() && s[i] == a && s[i + 1] == b
}

/// `''` at `i`: the delimiter of a quoted string.
pub open spec fn quote_at(s: Seq<u8>, i: int) -> bool {
    pair_at(s, i, 39, 39)
}

/// `//` at `i`: the start of a comment.
pub open spec fn comment_at(s: Seq<u8>, i: int) -> bool {
    pair_at(s, i, 47, 47)
}

/// `[{` at `i`.
pub open spec fn open_at(s: Seq<u8>, i: int) -> bool {
    pair_at(s, i, 91, 123)
}

/// `}]` at `i`.
pub open spec fn close_at(s: Seq<u8>, i: int) -> bool {
    pair_at(s, i, 125, 93)
}

/// `||` at `i`.
pub open spec fn divider_at(s: Seq<u8>, i: int) -> bool {
    pair_at(s, i, 124, 124)
}

/// `::` at `i`: the prefix of a key.
pub open spec fn key_at(s: Seq<u8>, i: int) -> bool {
    pair_at(s, i, 58, 58)
}

/// `$$` at `i`: the prefix of a variable reference.
pub open spec fn var_at(s: Seq<u8>, i: int) -> bool {
    pair_at(s, i, 36, 36)
}

/// One of the two-byte sequences that begin a non-word token stands at `i`.
/// A word run is broken wherever one of these appears.
pub open spec fn structural_at(s: Seq<u8>, i: int) -> bool {
    ||| quote_at(s, i)
    ||| comment_at(s, i)
    ||| open_at(s, i)
    ||| close_at(s, i)
    ||| divider_at(s, i)
    ||| key_at(s, i)
    ||| var_at(s, i)
}

/// The byte at `i` continues a word: it is not whitespace and does not begin
/// a structural sequence.
pub open spec fn word_byte_at(s: Seq<u8>, i: int) -> bool {
    0 <= i < s.len() && !is_ws(s[i]) && !structural_at(s, i)
}

/// The end of the word run starting at `i`: the first position that does not
/// continue a word.
pub open spec fn word_end(s: Seq<u8>, i: int) -> int
    decreases s.len() - i when 0 <= i <= s.len()
{
    if word_byte_at(s, i) {
        word_end(s, i + 1)
    } else {
        i
    }
}

/// The end of the run of non-whitespace bytes starting at `i`; key and
/// variable content extends this far.
pub open spec fn nonws_end(s: Seq<u8>, i: int) -> int
    decreases s.len() - i when 0 <= i <= s.len()
{
    if i < s.len() && !is_ws(s[i]) {
        nonws_end(s, i + 1)
    } else {
        i
    }
}

/// The end of the run of horizontal whitespace starting at `i`.
pub open spec fn hws_end(s: Seq<u8>, i: int) -> int
    decreases s.len() - i when 0 <= i <= s.len()
{
    if i < s.len() && is_hws(s[i]) {
        hws_end(s, i + 1)
    } else {
        i
    }
}

/// The position of the first line feed at or after `i`, or the end of the
/// buffer; a comment's content extends this far.
pub open spec fn line_end(s: Seq<u8>, i: int) -> int
    decreases s.len() - i when 0 <= i <= s.len()
{
    if i < s.len() && s[i] != 10 {
        line_end(s, i + 1)
    } else {
        i
    }
}

/// How many bytes the single line break at `i` occupies: two for `\r\n`,
/// otherwise one.
pub open spec fn break_len(s: Seq<u8>, i: int) -> int {
    if s[i] == 13 && i + 1 < s.len() && s[i + 1] == 10 {
        2
    } else {
        1
    }
}

/// Walk the whitespace run starting at `j`, carrying the count of line
/// breaks seen so far and the position just past the last of them. The walk
/// stops at the first byte that is not whitespace; trailing horizontal
/// whitespace after the last break is thereby never part of the result.
pub open spec fn blank_walk(s: Seq<u8>, j: int, cnt: int, last: int) -> (int, int)
    decreases s.len() - j when 0 <= j <= s.len()
{
    if j < s.len() && is_break(s[j]) {
        let step = break_len(s, j);
        blank_walk(s, j + step, cnt + 1, j + step)
    } else if j < s.len() && is_hws(s[j]) {
        blank_walk(s, j + 1, cnt, last)
    } else {
        (cnt, last)
    }
}

/// A blank-line token begins at `i`: a line break, with at least one more
/// break separated from it only by horizontal whitespace.
pub open spec fn blank_at(s: Seq<u8>, i: int) -> bool {
    0 <= i < s.len() && is_break(s[i]) && blank_walk(s, i, 0, i).0 >= 2
}

/// Where the blank-line token beginning at `i` ends: just past its last
/// line break. Trailing horizontal whitespace is left for the next token.
pub open spec fn blank_end(s: Seq<u8>, i: int) -> int {
    blank_walk(s, i, 0, i).1
}

/// Where the whitespace token beginning at `i` ends: a run of horizontal
/// whitespace, then at most one line break.
pub open spec fn ws_tok_end(s: Seq<u8>, i: int) -> int {
    let h = hws_end(s, i);
    if h < s.len() && is_break(s[h]) {
        h + break_len(s, h)
    } else {
        h
    }
}

/// The first position at or after `i` where a closing `''` stands, if any;
/// quoted content ends at the first such occurrence.
pub open spec fn quote_close(s: Seq<u8>, i: int) -> Option<int>
    decreases s.len() - i when 0 <= i <= s.len()
{
    if i + 2 > s.len() {
        None
    } else if quote_at(s, i) {
        Some(i)
    } else {
        quote_close(s, i + 1)
    }
}

/// A byte the content of a comment is trimmed of: ASCII whitespace.
pub open spec fn is_trim_ws(b: u8) -> bool {
    b == 32 || b == 9 || b == 10 || b == 13 || b == 11 || b == 12
}

/// The first position in `[i, hi)` holding a non-whitespace byte, or `hi`.
pub open spec fn skip_ws_fwd(s: Seq<u8>, i: int, hi: int) -> int
    decreases hi - i when 0 <= i <= hi <= s.len()
{
    if i < hi && is_trim_ws(s[i]) {
        skip_ws_fwd(s, i + 1, hi)
    } else {
        i
    }
}

/// The position just past the last non-whitespace byte before `j`, scanning
/// backward, but not before `lo`.
pub open spec fn skip_ws_back(s: Seq<u8>, lo: int, j: int) -> int
    decreases j - lo when 0 <= lo <= j <= s.len()
{
    if j > lo && is_trim_ws(s[j - 1]) {
        skip_ws_back(s, lo, j - 1)
    } else {
        j
    }
}

/// The bytes of `s` in `[lo, hi)` with leading and trailing ASCII
/// whitespace removed.
pub open spec fn trim_range(s: Seq<u8>, lo: int, hi: int) -> Seq<u8> {
    let a = skip_ws_fwd(s, lo, hi);
    s.subrange(a, skip_ws_back(s, a, hi))
}

/// The outcome of one scanning step at a position.
pub enum Scan {
    /// The end of the buffer was reached.
    End,
    /// A lexical failure: an unterminated quote, or a key or variable prefix
    /// with nothing attached to it.
    Fail,
    /// A token was recognized; it ends at the carried position.
    Found(TokenView, int),
}

/// One longest-match scanning step at position `i` of `s`: the rules in
/// priority order, each matching greedily within its own shape.
pub open spec fn spec_scan(s: Seq<u8>, i: int) -> Scan {
    if i >= s.len() {
        Scan::End
    } else if quote_at(s, i) {
        match quote_close(s, i + 2) {
            Some(j) => Scan::Found(TokenView::Quote(s.subrange(i + 2, j)), j + 2),
            None => Scan::Fail,
        }
    } else if comment_at(s, i) {
        let e = line_end(s, i + 2);
        Scan::Found(TokenView::Comment(trim_range(s, i + 2, e)), e)
    } else if blank_at(s, i) {
        Scan::Found(TokenView::BlankLine, blank_end(s, i))
    } else if open_at(s, i) {
        Scan::Found(TokenView::Open, i + 2)
    } else if close_at(s, i) {
        Scan::Found(TokenView::Close, i + 2)
    } else if divider_at(s, i) {
        Scan::Found(TokenView::Divider, i + 2)
    } else if key_at(s, i) && i + 2 < s.len() && !is_ws(s[i + 2]) {
        Scan::Found(TokenView::Key(s.subrange(i + 2, nonws_end(s, i + 2))), nonws_end(s, i + 2))
    } else if var_at(s, i) && i + 2 < s.len() && !is_ws(s[i + 2]) {
        Scan::Found(TokenView::Var(s.subrange(i + 2, nonws_end(s, i + 2))), nonws_end(s, i + 2))
    } else if word_byte_at(s, i) {
        Scan::Found(TokenView::Word(s.subrange(i, word_end(s, i))), word_end(s, i))
    } else if is_ws(s[i]) {
        Scan::Found(TokenView::Whitespace, ws_tok_end(s, i))
    } else {
        Scan::Fail
    }
}

/// Every run-scanning helper stays inside the buffer and never moves
/// backward.
pub proof fn lemma_run_bounds(s: Seq<u8>, i: int)
    requires
        0 <= i <= s.len(),
    ensures
        i <= word_end(s, i) <= s.len(),
        i <= nonws_end(s, i) <= s.len(),
        i <= hws_end(s, i) <= s.len(),
        i <= line_end(s, i) <= s.len(),
    decreases s.len() - i,
{
    if i < s.len() {
        lemma_run_bounds(s, i + 1);
    }
}

/// A found closing quote delimiter lies between the search start and the
/// end of the buffer.
pub proof fn lemma_quote_close_bounds(s: Seq<u8>, i: int)
    requires
        0 <= i <= s.len(),
    ensures
        quote_close(s, i) matches Some(j) ==> i <= j && j + 2 <= s.len(),
    decreases s.len() - i,
{
    if i + 2 <= s.len() && !quote_at(s, i) {
        lemma_quote_close_bounds(s, i + 1);
    }
}

/// The whitespace walk stays inside the buffer and never moves its
/// last-break mark backward.
pub proof fn lemma_blank_walk_bounds(s: Seq<u8>, j: int, cnt: int, last: int)
    requires
        0 <= j <= s.len(),
        last <= j,
    ensures
        last <= blank_walk(s, j, cnt, last).1 <= s.len(),
    decreases s.len() - j,
{
    if j < s.len() && is_break(s[j]) {
        let step = break_len(s, j);
        lemma_blank_walk_bounds(s, j + step, cnt + 1, j + step);
    } else if j < s.len() && is_hws(s[j]) {
        lemma_blank_walk_bounds(s, j + 1, cnt, last);
    }
}

/// Every token the scanner finds is non-empty and ends inside the buffer,
/// and the end of the buffer is the only place where scanning ends.
pub proof fn lemma_scan_bounds(s: Seq<u8>, i: int)
    requires
        0 <= i <= s.len(),
    ensures
        spec_scan(s, i) matches Scan::Found(tv, e) ==> i < e <= s.len(),
        spec_scan(s, i) is End <==> i == s.len(),
{
    lemma_run_bounds(s, i);
    if i < s.len() {
        if quote_at(s, i) {
            lemma_quote_close_bounds(s, i + 2);
        } else if comment_at(s, i) {
            lemma_run_bounds(s, i + 2);
        } else if blank_at(s, i) {
            let step = break_len(s, i);
            lemma_blank_walk_bounds(s, i + step, 1, i + step);
        } else if key_at(s, i) && i + 2 < s.len() && !is_ws(s[i + 2]) {
            lemma_run_bounds(s, i + 3);
            assert(nonws_end(s, i + 2) == nonws_end(s, i + 3));
        } else if var_at(s, i) && i + 2 < s.len() && !is_ws(s[i + 2]) {
            lemma_run_bounds(s, i + 3);
            assert(nonws_end(s, i + 2) == nonws_end(s, i + 3));
        } else if word_byte_at(s, i) {
            lemma_run_bounds(s, i + 1);
            assert(word_end(s, i) == word_end(s, i + 1));
        } else if is_ws(s[i]) {
            if is_hws(s[i]) {
                lemma_run_bounds(s, i + 1);
                assert(hws_end(s, i) == hws_end(s, i + 1));
            }
        }
    }
}

/// The next token at or after `i`, once whitespace has been skipped.
pub enum Next {
    /// The end of the buffer was reached.
    End,
    /// A lexical failure.
    Fail,
    /// A token was recognized; it spans the two carried positions.
    Found(TokenView, int, int),
}

/// The first non-whitespace token at or after position `i`: scan, and skip
/// over whitespace tokens.
pub open spec fn spec_next(s: Seq<u8>, i: int) -> Next
    decreases s.len() - i when 0 <= i <= s.len()
{
    match spec_scan(s, i) {
        Scan::End => Next::End,
        Scan::Fail => Next::Fail,
        Scan::Found(tv, e) => if tv is Whitespace {
            if i < e <= s.len() {
                spec_next(s, e)
            } else {
                Next::Fail
            }
        } else {
            Next::Found(tv, i, e)
        },
    }
}

/// The whole filtered token stream from position `i` on: every token with
/// its span, in source order, or nothing on a lexical failure.
pub open spec fn spec_tokens(s: Seq<u8>, i: int) -> Option<Seq<(TokenView, TextSpan)>>
    decreases s.len() - i when 0 <= i <= s.len()
{
    match spec_next(s, i) {
        Next::End => Some(Seq::empty()),
        Next::Fail => None,
        Next::Found(tv, st, e) => if i < e <= s.len() {
            match spec_tokens(s, e) {
                Some(rest) => Some(
                    seq![(tv, TextSpan { low: st as usize, high: e as usize })] + rest,
                ),
                None => None,
            }
        } else {
            None
        },
    }
}

/// What `spec_next` finds is a token of the underlying scan: it starts at or
/// after `i`, is non-empty, stays in bounds, and is never whitespace.
pub proof fn lemma_next_bounds(s: Seq<u8>, i: int)
    requires
        0 <= i <= s.len(),
    ensures
        spec_next(s, i) matches Next::Found(tv, st, e) ==> i <= st < e <= s.len() && !(
        tv is Whitespace),
    decreases s.len() - i,
{
    lemma_scan_bounds(s, i);
    match spec_scan(s, i) {
        Scan::Found(tv, e) => {
            if tv is Whitespace {
                lemma_next_bounds(s, e);
            }
        },
        _ => {},
    }
}

/// True of a byte position: there is a two-byte pair there.
fn pair_is(s: &[u8], i: usize, a: u8, b: u8) -> (r: bool)
    ensures
        r == pair_at(s@, i as int, a, b),
{
    i < s.len() && i + 1 < s.len() && s[i] == a && s[i + 1] == b
}

/// True of a horizontal-whitespace byte.
fn is_hws_byte(b: u8) -> (r: bool)
    ensures
        r == is_hws(b),
{
    b == 32 || b == 9
}

/// True of a line-break byte.
fn is_break_byte(b: u8) -> (r: bool)
    ensures
        r == is_break(b),
{
    b == 10 || b == 13
}

/// True of any whitespace byte.
fn is_ws_byte(b: u8) -> (r: bool)
    ensures
        r == is_ws(b),
{
    b == 32 || b == 9 || b == 10 || b == 13
}

/// True of a byte that trimming removes.
pub(crate) fn is_trim_byte(b: u8) -> (r: bool)
    ensures
        r == is_trim_ws(b),
{
    b == 32 || b == 9 || b == 10 || b == 13 || b == 11 || b == 12
}

/// True where one of the two-byte structural sequences stands.
fn structural_is(s: &[u8], i: usize) -> (r: bool)
    ensures
        r == structural_at(s@, i as int),
{
    pair_is(s, i, 39, 39) || pair_is(s, i, 47, 47) || pair_is(s, i, 91, 123) || pair_is(
        s,
        i,
        125,
        93,
    ) || pair_is(s, i, 124, 124) || pair_is(s, i, 58, 58) || pair_is(s, i, 36, 36)
}

/// True where a word continues.
fn word_byte_is(s: &[u8], i: usize) -> (r: bool)
    ensures
        r == word_byte_at(s@, i as int),
{
    i < s.len() && !is_ws_byte(s[i]) && !structural_is(s, i)
}

/// Find the end of the word run starting at `i`.
fn find_word_end(s: &[u8], i: usize) -> (r: usize)
    requires
        i <= s.len(),
    ensures
        r == word_end(s@, i as int),
        i <= r <= s.len(),
{
    let mut j = i;
    while word_byte_is(s, j)
        invariant
            i <= j <= s.len(),
            word_end(s@, i as int) == word_end(s@, j as int),
        decreases s.len() - j,
    {
        j = j + 1;
    }
    j
}

/// Find the end of the non-whitespace run starting at `i`.
fn find_nonws_end(s: &[u8], i: usize) -> (r: usize)
    requires
        i <= s.len(),
    ensures
        r == nonws_end(s@, i as int),
        i <= r <= s.len(),
{
    let mut j = i;
    while j < s.len() && !is_ws_byte(s[j])
        invariant
            i <= j <= s.len(),
            nonws_end(s@, i as int) == nonws_end(s@, j as int),
        decreases s.len() - j,
    {
        j = j + 1;
    }
    j
}

/// Find the end of the horizontal-whitespace run starting at `i`.
fn find_hws_end(s: &[u8], i: usize) -> (r: usize)
    requires
        i <= s.len(),
    ensures
        r == hws_end(s@, i as int),
        i <= r <= s.len(),
{
    let mut j = i;
    while j < s.len() && is_hws_byte(s[j])
        invariant
            i <= j <= s.len(),
            hws_end(s@, i as int) == hws_end(s@, j as int),
        decreases s.len() - j,
    {
        j = j + 1;
    }
    j
}

/// Find the first line feed at or after `i`, or the end of the buffer.
pub(crate) fn find_line_end(s: &[u8], i: usize) -> (r: usize)
    requires
        i <= s.len(),
    ensures
        r == line_end(s@, i as int),
        i <= r <= s.len(),
{
    let mut j = i;
    while j < s.len() && s[j] != 10
        invariant
            i <= j <= s.len(),
            line_end(s@, i as int) == line_end(s@, j as int),
        decreases s.len() - j,
    {
        j = j + 1;
    }
    j
}

/// Find the first closing `''` at or after `i`, if any.
fn find_quote_close(s: &[u8], i: usize) -> (r: Option<usize>)
    requires
        i <= s.len(),
    ensures
        match r {
            Some(j) => quote_close(s@, i as int) == Some(j as int) && i <= j && j + 2 <= s.len(),
            None => quote_close(s@, i as int) is None,
        },
{
    let mut j = i;
    while !(j < s.len() && j + 1 < s.len()) || !(s[j] == 39 && s[j + 1] == 39)
        invariant
            i <= j <= s.len(),
            quote_close(s@, i as int) == quote_close(s@, j as int),
        decreases s.len() - j,
    {
        if j < s.len() && j + 1 < s.len() {
            j = j + 1;
        } else {
            return None;
        }
    }
    Some(j)
}

/// Walk the whitespace run from `i`, returning the break count (capped only
/// by the buffer length) and the position just past the last break.
fn probe_blank(s: &[u8], i: usize) -> (r: (usize, usize))
    requires
        i <= s.len(),
    ensures
        (r.0 as int, r.1 as int) == blank_walk(s@, i as int, 0, i as int),
        i <= r.1 <= s.len(),
{
    let mut j = i;
    let mut cnt: usize = 0;
    let mut last = i;
    while j < s.len() && is_ws_byte(s[j])
        invariant
            i <= j <= s.len(),
            i <= last <= j,
            cnt <= j - i,
            blank_walk(s@, i as int, 0, i as int) == blank_walk(
                s@,
                j as int,
                cnt as int,
                last as int,
            ),
        decreases s.len() - j,
    {
        if is_break_byte(s[j]) {
            let step: usize = if s[j] == 13 && j + 1 < s.len() && s[j + 1] == 10 {
                2
            } else {
                1
            };
            j = j + step;
            cnt = cnt + 1;
            last = j;
        } else {
            j = j + 1;
        }
    }
    (cnt, last)
}

/// Copy the bytes of `[lo, hi)` out of the buffer.
pub(crate) fn copy_range(s: &[u8], lo: usize, hi: usize) -> (r: Vec<u8>)
    requires
        lo <= hi <= s.len(),
    ensures
        r@ == s@.subrange(lo as int, hi as int),
{
    let mut out: Vec<u8> = Vec::new();
    let mut j = lo;
    while j < hi
        invariant
            lo <= j <= hi <= s.len(),
            out@ == s@.subrange(lo as int, j as int),
        decreases hi - j,
    {
        out.push(s[j]);
        assert(out@ =~= s@.subrange(lo as int, j + 1 as int));
        j = j + 1;
    }
    out
}

/// Copy the bytes of `[lo, hi)` with surrounding ASCII whitespace removed.
pub(crate) fn copy_trimmed(s: &[u8], lo: usize, hi: usize) -> (r: Vec<u8>)
    requires
        lo <= hi <= s.len(),
    ensures
        r@ == trim_range(s@, lo as int, hi as int),
{
    let mut a = lo;
    while a < hi && is_trim_byte(s[a])
        invariant
            lo <= a <= hi <= s.len(),
            skip_ws_fwd(s@, lo as int, hi as int) == skip_ws_fwd(s@, a as int, hi as int),
        decreases hi - a,
    {
        a = a + 1;
    }
    let mut b = hi;
    while b > a && is_trim_byte(s[b - 1])
        invariant
            a <= b <= hi <= s.len(),
            skip_ws_back(s@, a as int, hi as int) == skip_ws_back(s@, a as int, b as int),
        decreases b,
    {
        b = b - 1;
    }
    copy_range(s, a, b)
}

/// One scanning step at position `i`: the recognized token with its span and
/// the position to continue from, `Ok(None)` at the end of the buffer, or a
/// lexical failure.
fn scan_at(s: &[u8], i: usize) -> (r: (Result<Option<(Token, TextSpan)>, Error>, usize))
    requires
        i <= s.len(),
    ensures
        match spec_scan(s@, i as int) {
            Scan::End => r == (Ok::<Option<(Token, TextSpan)>, Error>(None), i),
            Scan::Fail => r.0 == Err::<Option<(Token, TextSpan)>, Error>(Error::LexFailure),
            Scan::Found(tv, e) => {
                &&& r.0 matches Ok(o)
                &&& o matches Some(p)
                &&& p.0@ == tv
                &&& p.1.low == i
                &&& p.1.high as int == e
                &&& r.1 as int == e
            },
        },
        r.1 <= s.len(),
{
    proof {
        lemma_scan_bounds(s@, i as int);
    }
    if i >= s.len() {
        return (Ok(None), i);
    }
    if pair_is(s, i, 39, 39) {
        match find_quote_close(s, i + 2) {
            Some(j) => {
                let content = copy_range(s, i + 2, j);
                return (
                    Ok(Some((Token::Quote(content), TextSpan { low: i, high: j + 2 }))),
                    j + 2,
                );
            },
            None => {
                return (Err(Error::LexFailure), i);
            },
        }
    }
    if pair_is(s, i, 47, 47) {
        let e = find_line_end(s, i + 2);
        let content = copy_trimmed(s, i + 2, e);
        return (Ok(Some((Token::Comment(content), TextSpan { low: i, high: e }))), e);
    }
    if is_break_byte(s[i]) {
        let (cnt, last) = probe_blank(s, i);
        if cnt >= 2 {
            return (Ok(Some((Token::BlankLine, TextSpan { low: i, high: last }))), last);
        }
    }
    if pair_is(s, i, 91, 123) {
        return (Ok(Some((Token::Open, TextSpan { low: i, high: i + 2 }))), i + 2);
    }
    if pair_is(s, i, 125, 93) {
        return (Ok(Some((Token::Close, TextSpan { low: i, high: i + 2 }))), i + 2);
    }
    if pair_is(s, i, 124, 124) {
        return (Ok(Some((Token::Divider, TextSpan { low: i, high: i + 2 }))), i + 2);
    }
    if pair_is(s, i, 58, 58) && i + 2 < s.len() && !is_ws_byte(s[i + 2]) {
        let e = find_nonws_end(s, i + 2);
        let content = copy_range(s, i + 2, e);
        return (Ok(Some((Token::Key(content), TextSpan { low: i, high: e }))), e);
    }
    if pair_is(s, i, 36, 36) && i + 2 < s.len() && !is_ws_byte(s[i + 2]) {
        let e = find_nonws_end(s, i + 2);
        let content = copy_range(s, i + 2, e);
        return (Ok(Some((Token::Var(content), TextSpan { low: i, high: e }))), e);
    }
    if word_byte_is(s, i) {
        let e = find_word_end(s, i);
        let content = copy_range(s, i, e);
        return (Ok(Some((Token::Word(content), TextSpan { low: i, high: e }))), e);
    }
    if is_ws_byte(s[i]) {
        let h = find_hws_end(s, i);
        let e: usize = if h < s.len() && is_break_byte(s[h]) {
            if s[h] == 13 && h + 1 < s.len() && s[h + 1] == 10 {
                h + 2
            } else {
                h + 1
            }
        } else {
            h
        };
        return (Ok(Some((Token::Whitespace, TextSpan { low: i, high: e }))), e);
    }
    (Err(Error::LexFailure), i)
}

/// A lazy, finite token source over a borrowed byte buffer: repeated calls
/// to `next` walk the buffer left to right exactly once.
#[derive(Debug)]
pub struct Lexer<'a> {
    /// The buffer being scanned.
    pub source: &'a [u8],
    /// The position the next scan starts from.
    pub pos: usize,
}

impl<'a> Lexer<'a> {
    /// The position never leaves the buffer.
    pub open spec fn wf(self) -> bool {
        self.pos <= self.source@.len()
    }

    /// Create a lexer over a source buffer, ready at its start.
    pub fn new(src: &'a [u8]) -> (r: Lexer<'a>)
        ensures
            r.source@ == src@,
            r.pos == 0,
            r.wf(),
    {
        Lexer { source: src, pos: 0 }
    }

    /// The next non-whitespace token with its span, `Ok(None)` once the
    /// buffer is exhausted, or a lexical failure. Whitespace tokens are
    /// scanned internally and never surface.
    pub fn next(&mut self) -> (r: Result<Option<(Token, TextSpan)>, Error>)
        requires
            old(self).wf(),
        ensures
            final(self).source@ == old(self).source@,
            final(self).wf(),
            match spec_next(old(self).source@, old(self).pos as int) {
                Next::End => r == Ok::<Option<(Token, TextSpan)>, Error>(None),
                Next::Fail => r == Err::<Option<(Token, TextSpan)>, Error>(Error::LexFailure),
                Next::Found(tv, st, e) => {
                    &&& r matches Ok(o)
                    &&& o matches Some(p)
                    &&& p.0@ == tv
                    &&& p.1.low as int == st
                    &&& p.1.high as int == e
                    &&& final(self).pos as int == e
                },
            },
    {
        loop
            invariant
                self.wf(),
                self.source@ == old(self).source@,
                spec_next(self.source@, self.pos as int) == spec_next(
                    old(self).source@,
                    old(self).pos as int,
                ),
            decreases self.source@.len() - self.pos,
        {
            proof {
                lemma_scan_bounds(self.source@, self.pos as int);
            }
            let (step, nxt) = scan_at(self.source, self.pos);
            match step {
                Ok(None) => {
                    return Ok(None);
                },
                Err(e) => {
                    return Err(e);
                },
                Ok(Some((tok, span))) => {
                    let is_ws_tok = match tok {
                        Token::Whitespace => true,
                        _ => false,
                    };
                    self.pos = nxt;
                    if !is_ws_tok {
                        return Ok(Some((tok, span)));
                    }
                },
            }
        }
    }
}

/// Run a lexer to exhaustion: every non-whitespace token of the buffer with
/// its span, in source order, or the lexical failure that stopped scanning.
pub fn lex(source: &[u8]) -> (r: Result<Vec<(Token, TextSpan)>, Error>)
    ensures
        match spec_tokens(source@, 0) {
            Some(ts) => r matches Ok(v) && tokens_view(v@) == ts,
            None => r == Err::<Vec<(Token, TextSpan)>, Error>(Error::LexFailure),
        },
{
    let mut lexer = Lexer::new(source);
    let mut out: Vec<(Token, TextSpan)> = Vec::new();
    loop
        invariant
            lexer.wf(),
            lexer.source@ == source@,
            match spec_tokens(source@, lexer.pos as int) {
                Some(rest) => spec_tokens(source@, 0) matches Some(all) && all == tokens_view(
                    out@,
                ) + rest,
                None => spec_tokens(source@, 0) is None,
            },
        decreases source@.len() - lexer.pos,
    {
        let ghost pos0 = lexer.pos as int;
        proof {
            lemma_next_bounds(source@, pos0);
        }
        match lexer.next() {
            Ok(None) => {
                proof {
                    assert(spec_tokens(source@, pos0) == Some(
                        Seq::<(TokenView, TextSpan)>::empty(),
                    ));
                    assert(tokens_view(out@) + Seq::<(TokenView, TextSpan)>::empty()
                        =~= tokens_view(out@));
                }
                return Ok(out);
            },
            Err(e) => {
                return Err(Error::LexFailure);
            },
            Ok(Some((tok, span))) => {
                let ghost tv = tok@;
                let ghost st = span.low as int;
                let ghost e = span.high as int;
                let ghost out_before = out@;
                out.push((tok, span));
                proof {
                    assert(TextSpan { low: st as usize, high: e as usize } == span);
                    match spec_tokens(source@, e) {
                        Some(ts1) => {
                            assert(spec_tokens(source@, pos0) == Some(seq![(tv, span)] + ts1));
                            assert(tokens_view(out@) =~= tokens_view(out_before).push(
                                (tv, span),
                            ));
                            assert(tokens_view(out_before) + (seq![(tv, span)] + ts1)
                                =~= tokens_view(out@) + ts1);
                        },
                        None => {
                            assert(spec_tokens(source@, pos0) is None);
                        },
                    }
                }
            },
        }
    }
}

/// The spans of the raw token stream from position `i` on, whitespace
/// tokens included, or nothing on a lexical failure.
pub open spec fn spec_raw_spans(s: Seq<u8>, i: int) -> Option<Seq<TextSpan>>
    decreases s.len() - i when 0 <= i <= s.len()
{
    match spec_scan(s, i) {
        Scan::End => Some(Seq::empty()),
        Scan::Fail => None,
        Scan::Found(tv, e) => if i < e <= s.len() {
            match spec_raw_spans(s, e) {
                Some(rest) => Some(seq![TextSpan { low: i as usize, high: e as usize }] + rest),
                None => None,
            }
        } else {
            None
        },
    }
}

/// The source bytes under a list of spans, concatenated in order.
pub open spec fn concat_spans(s: Seq<u8>, spans: Seq<TextSpan>) -> Seq<u8>
    decreases spans.len(),
{
    if spans.len() == 0 {
        Seq::empty()
    } else if spans[0].low <= spans[0].high <= s.len() {
        s.subrange(spans[0].low as int, spans[0].high as int) + concat_spans(
            s,
            spans.subrange(1, spans.len() as int),
        )
    } else {
        Seq::empty()
    }
}

/// Lexing is total left to right and never reorders: when scanning from `i`
/// succeeds, each raw token's span is non-empty, the first starts at `i`,
/// each further one starts exactly where its predecessor ended, the last
/// ends at the end of the buffer, and concatenating the source bytes under
/// the spans in order reconstructs the scanned part of the source exactly.
pub proof fn lemma_raw_spans_tile(s: Seq<u8>, i: int)
    requires
        0 <= i <= s.len(),
        s.len() <= usize::MAX,
    ensures
        spec_raw_spans(s, i) matches Some(spans) ==> {
            &&& (spans.len() == 0 ==> i == s.len())
            &&& (spans.len() > 0 ==> spans[0].low == i && spans[spans.len() - 1].high == s.len())
            &&& forall|k: int| 0 <= k < spans.len() ==> (#[trigger] spans[k]).low < spans[k].high
                <= s.len()
            &&& forall|k: int|
                0 <= k < spans.len() - 1 ==> (#[trigger] spans[k]).high == spans[k + 1].low
            &&& concat_spans(s, spans) == s.subrange(i, s.len() as int)
        },
    decreases s.len() - i,
{
    lemma_scan_bounds(s, i);
    match spec_scan(s, i) {
        Scan::End => {
            assert(concat_spans(s, Seq::<TextSpan>::empty()) =~= s.subrange(i, s.len() as int));
        },
        Scan::Fail => {},
        Scan::Found(tv, e) => {
            lemma_raw_spans_tile(s, e);
            match spec_raw_spans(s, e) {
                Some(rest) => {
                    let head = TextSpan { low: i as usize, high: e as usize };
                    let spans = seq![head] + rest;
                    assert(spec_raw_spans(s, i) == Some(spans));
                    assert(spans[0] == head);
                    assert(head.low as int == i && head.high as int == e);
                    assert(spans.subrange(1, spans.len() as int) =~= rest);
                    assert(concat_spans(s, spans) == s.subrange(
                        head.low as int,
                        head.high as int,
                    ) + concat_spans(s, spans.subrange(1, spans.len() as int)));
                    assert(concat_spans(s, spans) == s.subrange(i, e) + concat_spans(s, rest));
                    assert(s.subrange(i, e) + s.subrange(e, s.len() as int) =~= s.subrange(
                        i,
                        s.len() as int,
                    ));
                    if rest.len() > 0 {
                        assert(spans[spans.len() - 1] == rest[rest.len() - 1]);
                        assert forall|k: int| 0 <= k < spans.len() - 1 implies (
                        #[trigger] spans[k]).high == spans[k + 1].low by {
                            if k > 0 {
                                assert(spans[k] == rest[k - 1]);
                                assert(spans[k + 1] == rest[k]);
                            } else {
                                assert(spans[0] == head);
                                assert(spans[1] == rest[0]);
                            }
                        }
                    }
                },
                None => {},
            }
        },
    }
}

/// The surfaced token stream never reorders: every token's span is
/// non-empty and inside the buffer, and each token's span begins at or
/// after the end of the one before it.
pub proof fn lemma_tokens_ordered(s: Seq<u8>, i: int)
    requires
        0 <= i <= s.len(),
        s.len() <= usize::MAX,
    ensures
        spec_tokens(s, i) matches Some(ts) ==> {
            &&& forall|k: int|
                0 <= k < ts.len() ==> i <= (#[trigger] ts[k]).1.low < ts[k].1.high <= s.len()
            &&& forall|k: int| 0 <= k < ts.len() - 1 ==> (#[trigger] ts[k]).1.high <= ts[k
                + 1].1.low
        },
    decreases s.len() - i,
{
    lemma_next_bounds(s, i);
    match spec_next(s, i) {
        Next::Found(tv, st, e) => {
            lemma_tokens_ordered(s, e);
            match spec_tokens(s, e) {
                Some(rest) => {
                    let head = (tv, TextSpan { low: st as usize, high: e as usize });
                    let ts = seq![head] + rest;
                    assert(spec_tokens(s, i) == Some(ts));
                    assert(ts[0] == head);
                    assert forall|k: int| 0 <= k < ts.len() implies i <= (
                    #[trigger] ts[k]).1.low < ts[k].1.high <= s.len() by {
                        if k > 0 {
                            assert(ts[k] == rest[k - 1]);
                        }
                    }
                    assert forall|k: int| 0 <= k < ts.len() - 1 implies (
                    #[trigger] ts[k]).1.high <= ts[k + 1].1.low by {
                        if k > 0 {
                            assert(ts[k] == rest[k - 1]);
                            assert(ts[k + 1] == rest[k]);
                        } else {
                            assert(ts[1] == rest[0]);
                        }
                    }
                },
                None => {},
            }
        },
        _ => {},
    }
}

} // verus!
