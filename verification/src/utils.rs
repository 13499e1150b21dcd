//! Scanning and editing of token sequences.

use vstd::prelude::*;
use crate::models::{Token, TokenView, WFuncVariant, WTokens};
use crate::semantics::{
    balance, first_call, first_pair, has_call, has_pair, is_first_call, is_first_pair, is_pair,
    spliced, Code,
};

verus! {

/// The view of a sequence of tokens is made of the views of its tokens.
pub open spec fn views(tokens: Seq<Token>) -> Code {
    Seq::new(tokens.len(), |i: int| tokens[i].deep_view())
}

/// The view of a vector of tokens goes by its contents alone.
pub proof fn lemma_views(tokens: WTokens)
    ensures
        tokens.deep_view() == views(tokens@),
{
    assert(tokens.deep_view() =~= views(tokens@));
}

/// The views of a concatenation.
pub proof fn lemma_views_add(a: Seq<Token>, b: Seq<Token>)
    ensures
        views(a + b) == views(a) + views(b),
{
    assert(views(a + b) =~= views(a) + views(b));
}

/// The views of a part.
pub proof fn lemma_views_subrange(a: Seq<Token>, from: int, to: int)
    requires
        0 <= from <= to <= a.len(),
    ensures
        views(a.subrange(from, to)) == views(a).subrange(from, to),
{
    assert(views(a.subrange(from, to)) =~= views(a).subrange(from, to));
}

/// The leftmost call of a sequence is the one that `first_call` names.
pub proof fn lemma_first_call(code: Code, at: int)
    requires
        is_first_call(code, at),
    ensures
        has_call(code),
        first_call(code) == at,
{
    let other = first_call(code);
    assert(is_first_call(code, other));
}

/// A sequence has one first matched pair, the one that `first_pair` names.
pub proof fn lemma_first_pair(code: Code, open: int, close: int)
    requires
        is_first_pair(code, open, close),
    ensures
        has_pair(code),
        first_pair(code) == (open, close),
{
    let other = first_pair(code);
    assert(is_first_pair(code, (open, close).0, (open, close).1));
    assert(is_first_pair(code, other.0, other.1));
    assert(is_pair(code, open, close));
    assert(is_pair(code, other.0, other.1));
    assert(other.0 == open);
    if other.1 < close {
        assert(balance(code, open, other.1 + 1) > 0);
    }
    if close < other.1 {
        assert(balance(code, open, close + 1) > 0);
    }
}

/// A sequence with a matched pair of parentheses has a first one.
pub proof fn lemma_has_pair(code: Code, open: int, close: int)
    requires
        is_pair(code, open, close),
    ensures
        has_pair(code),
    decreases open,
{
    if exists|o: int, c: int| 0 <= o < open && is_pair(code, o, c) {
        let (o, c) = choose|o: int, c: int| 0 <= o < open && is_pair(code, o, c);
        lemma_has_pair(code, o, c);
    } else {
        assert(is_first_pair(code, open, close));
    }
}

/// Finds the leftmost call of `code`: the span of its arguments, which is all
/// that stands before it, and what it calls. `None` where `code` holds no
/// call.
pub fn first_function(code: &WTokens) -> (site: Option<(std::ops::Range<usize>, WFuncVariant)>)
    ensures
        match site {
            Some((span, func)) => {
                &&& span.start == 0
                &&& is_first_call(code.deep_view(), span.end as int)
                &&& code.deep_view()[span.end as int] == TokenView::Call(func.deep_view())
            },
            None => !has_call(code.deep_view()),
        },
{
    let mut i: usize = 0;
    while i < code.len()
        invariant
            i <= code.len(),
            forall|j: int| 0 <= j < i ==> !(code.deep_view()[j] is Call),
        decreases code.len() - i,
    {
        match &code[i] {
            Token::Call(func) => {
                return Some((0..i, func.clone()));
            },
            _ => {},
        }
        i += 1;
    }
    None
}

/// Finds the first matched pair of parentheses of `code`: the leftmost
/// opening parenthesis that is closed, and the parenthesis that closes it,
/// counting the parentheses between them. `None` where no parenthesis of
/// `code` is matched.
pub fn special_pairs(code: &WTokens) -> (pair: Option<(usize, usize)>)
    ensures
        match pair {
            Some((open, close)) => is_first_pair(code.deep_view(), open as int, close as int),
            None => !has_pair(code.deep_view()),
        },
{
    let ghost view = code.deep_view();
    let mut open: usize = 0;
    while open < code.len()
        invariant
            open <= code.len(),
            view == code.deep_view(),
            forall|o: int, c: int| 0 <= o < open ==> !is_pair(view, o, c),
        decreases code.len() - open,
    {
        if is_open(&code[open]) {
            let mut depth: usize = 1;
            let mut i: usize = open + 1;
            assert(balance(view, open as int, open as int) == 0);
            while i < code.len()
                invariant
                    open < i <= code.len(),
                    view == code.deep_view(),
                    view[open as int] is Open,
                    forall|o: int, c: int| 0 <= o < open ==> !is_pair(view, o, c),
                    depth == balance(view, open as int, i as int),
                    0 < depth <= i - open,
                    forall|k: int| open < k <= i ==> balance(view, open as int, k) > 0,
                decreases code.len() - i,
            {
                match &code[i] {
                    Token::Open => {
                        depth += 1;
                    },
                    Token::Close => {
                        depth -= 1;
                        if depth == 0 {
                            return Some((open, i));
                        }
                    },
                    _ => {},
                }
                i += 1;
            }
            assert forall|c: int| !is_pair(view, open as int, c) by {
                if is_pair(view, open as int, c) {
                    assert(balance(view, open as int, c + 1) > 0);
                }
            }
        }
        open += 1;
    }
    None
}

/// Tells whether a token is an opening parenthesis.
fn is_open(token: &Token) -> (yes: bool)
    ensures
        yes == (token.deep_view() is Open),
{
    match token {
        Token::Open => true,
        _ => false,
    }
}

/// Replaces `code[from..to]` by the tokens of `with`.
pub fn splice(code: &mut WTokens, from: usize, to: usize, with: WTokens)
    requires
        from <= to <= old(code).len(),
    ensures
        final(code).deep_view() == spliced(
            old(code).deep_view(),
            from as int,
            to as int,
            with.deep_view(),
        ),
{
    let mut with = with;
    let ghost before = code@;
    let ghost middle = with@;
    let mut tail = code.split_off(to);
    code.truncate(from);
    code.append(&mut with);
    code.append(&mut tail);
    proof {
        let head = before.subrange(0, from as int);
        let rest = before.subrange(to as int, before.len() as int);
        assert(before.subrange(0, to as int).subrange(0, from as int) == head);
        assert(code@ == head + middle + rest);
        lemma_views(*code);
        lemma_views(*old(code));
        lemma_views(with);
        lemma_views_add(head + middle, rest);
        lemma_views_add(head, middle);
        lemma_views_subrange(before, 0, from as int);
        lemma_views_subrange(before, to as int, before.len() as int);
    }
}

/// Copies `code[from..to]`.
pub fn clone_range(code: &WTokens, from: usize, to: usize) -> (part: WTokens)
    requires
        from <= to <= code.len(),
    ensures
        part.deep_view() == code.deep_view().subrange(from as int, to as int),
{
    let mut part: WTokens = Vec::new();
    let mut i: usize = from;
    while i < to
        invariant
            from <= i <= to <= code.len(),
            part.len() == i - from,
            forall|j: int| 0 <= j < i - from ==> part[j].deep_view() == code[from + j].deep_view(),
        decreases to - i,
    {
        part.push(code[i].clone());
        i += 1;
    }
    assert(part.deep_view() =~= code.deep_view().subrange(from as int, to as int));
    part
}

} // verus!
