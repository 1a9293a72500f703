//! Bracket nesting: which loop-open belongs to which loop-close, and when a
//! bracket has no partner.

use vstd::prelude::*;
use crate::token::Token;

verus! {

/// By how much a token changes the nesting depth.
pub open spec fn nesting_change(t: Token) -> int {
    match t {
        Token::T_LBRACKET => 1,
        Token::T_RBRACKET => -1,
        _ => 0,
    }
}

/// The nesting depth in front of position `i`: the loop-opens minus the
/// loop-closes among the first `i` tokens.
pub open spec fn depth(toks: Seq<Token>, i: int) -> int
    decreases i,
{
    if i <= 0 {
        0
    } else {
        depth(toks, i - 1) + nesting_change(toks[i - 1])
    }
}

/// Whether the loop-open at `open` and the loop-close at `close` belong together:
/// the close brings the depth back to what it was in front of the open, and
/// nothing between them does.
pub open spec fn matched(toks: Seq<Token>, open: int, close: int) -> bool {
    &&& 0 <= open < close < toks.len()
    &&& toks[open] == Token::T_LBRACKET
    &&& toks[close] == Token::T_RBRACKET
    &&& depth(toks, close + 1) == depth(toks, open)
    &&& forall|k: int| open < k <= close ==> depth(toks, k) > depth(toks, open)
}

/// Whether a loop-close stands at `close` and no loop-open matches it.
pub open spec fn unmatched_close(toks: Seq<Token>, close: int) -> bool {
    &&& 0 <= close < toks.len()
    &&& toks[close] == Token::T_RBRACKET
    &&& forall|open: int| !matched(toks, open, close)
}

/// Whether a loop-open stands at `open` and no loop-close matches it.
pub open spec fn unmatched_open(toks: Seq<Token>, open: int) -> bool {
    &&& 0 <= open < toks.len()
    &&& toks[open] == Token::T_LBRACKET
    &&& forall|close: int| !matched(toks, open, close)
}

/// Whether some loop-close has no loop-open to match.
pub open spec fn has_unmatched_close(toks: Seq<Token>) -> bool {
    exists|close: int| unmatched_close(toks, close)
}

/// Whether some loop-open is never closed.
pub open spec fn has_unmatched_open(toks: Seq<Token>) -> bool {
    exists|open: int| unmatched_open(toks, open)
}

/// Whether the brackets are well nested: every bracket has its partner.
pub open spec fn balanced(toks: Seq<Token>) -> bool {
    !has_unmatched_close(toks) && !has_unmatched_open(toks)
}

/// Whether some prefix of the tokens closes more loops than it opens.
pub open spec fn dips_below_zero(toks: Seq<Token>) -> bool {
    exists|i: int| 0 <= i <= toks.len() && depth(toks, i) < 0
}

/// A loop-open has at most one matching loop-close.
pub proof fn lemma_matching_close_unique(toks: Seq<Token>, open: int, a: int, b: int)
    requires
        matched(toks, open, a),
        matched(toks, open, b),
    ensures
        a == b,
{
    if a < b {
        assert(depth(toks, a + 1) > depth(toks, open));
    } else if b < a {
        assert(depth(toks, b + 1) > depth(toks, open));
    }
}

/// A loop-close has at most one matching loop-open.
pub proof fn lemma_matching_open_unique(toks: Seq<Token>, a: int, b: int, close: int)
    requires
        matched(toks, a, close),
        matched(toks, b, close),
    ensures
        a == b,
{
    if a < b {
        assert(depth(toks, b) > depth(toks, a));
        assert(depth(toks, b + 1) > depth(toks, b));
    } else if b < a {
        assert(depth(toks, a) > depth(toks, b));
        assert(depth(toks, a + 1) > depth(toks, a));
    }
}

/// Two matched pairs are either apart or one inside the other: a pair that
/// begins inside another ends inside it.
pub proof fn lemma_pairs_nest(toks: Seq<Token>, open: int, close: int, inner: int, end: int)
    requires
        matched(toks, open, close),
        matched(toks, inner, end),
        open < inner < close,
    ensures
        end < close,
{
    assert(depth(toks, inner) > depth(toks, open));
    if end > close {
        assert(depth(toks, close + 1) > depth(toks, inner));
    } else if end == close {
        lemma_matching_open_unique(toks, open, inner, close);
    }
}

/// A pair that ends inside another begins inside it.
pub proof fn lemma_pairs_nest_backwards(
    toks: Seq<Token>,
    open: int,
    close: int,
    start: int,
    inner: int,
)
    requires
        matched(toks, open, close),
        matched(toks, start, inner),
        open < inner < close,
    ensures
        open < start,
{
    if start < open {
        assert(depth(toks, open) > depth(toks, start));
        assert(depth(toks, inner + 1) > depth(toks, open));
    } else if start == open {
        lemma_matching_close_unique(toks, open, close, inner);
    }
}

/// Where the depth is above `d` at `from` and not above it at `to`, the first
/// position after `from` at which it is `d` is returned: the depth is above `d`
/// all the way up to there.
proof fn lemma_first_return(toks: Seq<Token>, from: int, to: int, d: int) -> (k: int)
    requires
        0 <= from < to,
        depth(toks, from) > d,
        depth(toks, to) <= d,
    ensures
        from < k <= to,
        depth(toks, k) == d,
        forall|m: int| from <= m < k ==> depth(toks, m) > d,
    decreases to - from,
{
    if depth(toks, from + 1) > d {
        lemma_first_return(toks, from + 1, to, d)
    } else {
        from + 1
    }
}

/// Where the depth is not above `d` at `from` and above it at `to`, the last
/// position before `to` at which it is `d` is returned: the depth is above `d`
/// all the way from there on.
proof fn lemma_last_visit(toks: Seq<Token>, from: int, to: int, d: int) -> (k: int)
    requires
        0 <= from <= to,
        depth(toks, from) <= d,
        depth(toks, to) > d,
    ensures
        from <= k < to,
        depth(toks, k) == d,
        forall|m: int| k < m <= to ==> depth(toks, m) > d,
    decreases to - from,
{
    if depth(toks, to - 1) > d {
        lemma_last_visit(toks, from, to - 1, d)
    } else {
        to - 1
    }
}

/// A loop-open after which the depth comes back to what it was in front of it
/// has a matching loop-close, which is returned.
pub proof fn lemma_open_is_matched(toks: Seq<Token>, open: int, later: int) -> (close: int)
    requires
        0 <= open < later <= toks.len(),
        toks[open] == Token::T_LBRACKET,
        depth(toks, later) <= depth(toks, open),
    ensures
        matched(toks, open, close),
        close < later,
{
    let k = lemma_first_return(toks, open + 1, later, depth(toks, open));
    assert(depth(toks, k - 1) > depth(toks, open));
    k - 1
}

/// A loop-close in front of which the depth was once no more than it is after
/// it has a matching loop-open, which is returned.
pub proof fn lemma_close_is_matched(toks: Seq<Token>, earlier: int, close: int) -> (open: int)
    requires
        0 <= earlier <= close < toks.len(),
        toks[close] == Token::T_RBRACKET,
        depth(toks, earlier) <= depth(toks, close + 1),
    ensures
        matched(toks, open, close),
        earlier <= open,
{
    let k = lemma_last_visit(toks, earlier, close, depth(toks, close + 1));
    assert(depth(toks, k + 1) > depth(toks, k));
    k
}

/// Some loop-close has no match exactly where some prefix closes more loops
/// than it opens.
pub proof fn lemma_unmatched_close_is_dip(toks: Seq<Token>)
    ensures
        has_unmatched_close(toks) <==> dips_below_zero(toks),
{
    if dips_below_zero(toks) {
        let p = choose|i: int| 0 <= i <= toks.len() && depth(toks, i) < 0;
        let k = lemma_first_return(toks, 0, p, -1);
        let close = k - 1;
        assert(depth(toks, close) > -1);
        assert(unmatched_close(toks, close)) by {
            assert forall|open: int| !matched(toks, open, close) by {
                if matched(toks, open, close) {
                    assert(depth(toks, open) > -1);
                }
            }
        }
    }
    if has_unmatched_close(toks) {
        let close = choose|close: int| unmatched_close(toks, close);
        if depth(toks, close + 1) >= 0 {
            let open = lemma_close_is_matched(toks, 0, close);
        }
        assert(depth(toks, close + 1) < 0);
    }
}

/// Where every loop-close has its match, some loop-open is never closed exactly
/// where the tokens open more loops than they close.
pub proof fn lemma_unmatched_open_is_surplus(toks: Seq<Token>)
    requires
        !has_unmatched_close(toks),
    ensures
        has_unmatched_open(toks) <==> depth(toks, toks.len() as int) > 0,
        depth(toks, toks.len() as int) >= 0,
{
    lemma_unmatched_close_is_dip(toks);
    let len = toks.len() as int;
    assert(depth(toks, len) >= 0);
    if depth(toks, len) > 0 {
        let k = lemma_last_visit(toks, 0, len, 0);
        assert(depth(toks, k + 1) > depth(toks, k));
        assert(unmatched_open(toks, k)) by {
            assert forall|close: int| !matched(toks, k, close) by {
                if matched(toks, k, close) {
                    assert(depth(toks, close + 1) > 0);
                }
            }
        }
    }
    if has_unmatched_open(toks) {
        let open = choose|open: int| unmatched_open(toks, open);
        assert(depth(toks, open) >= 0);
        if depth(toks, len) <= depth(toks, open) {
            let close = lemma_open_is_matched(toks, open, len);
        }
    }
}

/// In well-nested tokens every bracket has its partner: for a loop-open its
/// loop-close is returned, for a loop-close its loop-open.
pub proof fn lemma_balanced_partner(toks: Seq<Token>, i: int) -> (partner: int)
    requires
        balanced(toks),
        0 <= i < toks.len(),
        toks[i] == Token::T_LBRACKET || toks[i] == Token::T_RBRACKET,
    ensures
        toks[i] == Token::T_LBRACKET ==> matched(toks, i, partner),
        toks[i] == Token::T_RBRACKET ==> matched(toks, partner, i),
{
    if toks[i] == Token::T_LBRACKET {
        assert(!unmatched_open(toks, i));
        choose|close: int| matched(toks, i, close)
    } else {
        assert(!unmatched_close(toks, i));
        choose|open: int| matched(toks, open, i)
    }
}

} // verus!
