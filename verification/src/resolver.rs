//! Substitution of parameters by the arguments of a call.

use vstd::prelude::*;
use crate::failure::{Failure, FailureView};
use crate::models::{Range, Token, TokenView, WTokens};
use crate::semantics::{expand, range_fits, resolve_spec, Code};

verus! {

/// The view of the outcome of a substitution.
pub open spec fn resolved_view(outcome: Result<WTokens, Failure>) -> Result<Code, FailureView> {
    match outcome {
        Ok(tokens) => Ok(tokens.deep_view()),
        Err(failure) => Err(failure.deep_view()),
    }
}

/// Tells whether every reverse index that `range` names exists among `len`
/// arguments.
pub fn fits(range: Range, len: usize) -> (yes: bool)
    ensures
        yes == range_fits(range, len as int),
{
    match range {
        Range::Full(start, end) => start > end || end < len,
        Range::From(_) => true,
        Range::To(end) => end < len,
    }
}

/// Appends to `out` the arguments that `range` captures.
fn push_captured(out: &mut WTokens, range: Range, args: &WTokens)
    requires
        range_fits(range, args.len() as int),
    ensures
        final(out).deep_view() == old(out).deep_view() + expand(range, args.deep_view()),
{
    let len = args.len();
    let (from, to): (usize, usize) = match range {
        Range::Full(start, end) => if start <= end {
            (len - 1 - end, len - start)
        } else {
            (0, 0)
        },
        Range::From(start) => if start < len {
            (0, len - start)
        } else {
            (0, 0)
        },
        Range::To(end) => (len - 1 - end, len),
    };
    assert(from <= to <= len);
    assert(expand(range, args.deep_view()) == args.deep_view().subrange(from as int, to as int));
    let mut i: usize = from;
    while i < to
        invariant
            from <= i <= to <= args.len(),
            out.deep_view() == old(out).deep_view() + args.deep_view().subrange(
                from as int,
                i as int,
            ),
        decreases to - i,
    {
        let ghost before = out.deep_view();
        out.push(args[i].clone());
        assert(out.deep_view() == before.push(args[i as int].deep_view()));
        assert(args.deep_view().subrange(from as int, i + 1) == args.deep_view().subrange(
            from as int,
            i as int,
        ).push(args[i as int].deep_view()));
        i += 1;
    }
}

/// Puts the arguments `args` in the place of the parameters of `tokens`.
///
/// A parameter stands for the arguments that its range captures, in the
/// order they have in `args`; every other token stays as it is, a group with
/// the parameters inside it too. The first parameter that names an argument
/// which `args` does not have makes the substitution fail.
pub fn resolve(tokens: &WTokens, args: &WTokens) -> (outcome: Result<WTokens, Failure>)
    ensures
        resolved_view(outcome) == resolve_spec(tokens.deep_view(), args.deep_view()),
{
    let mut out: WTokens = Vec::new();
    let mut i: usize = 0;
    assert(tokens.deep_view().take(0) == Seq::<TokenView>::empty());
    assert(out.deep_view() == Seq::<TokenView>::empty());
    while i < tokens.len()
        invariant
            i <= tokens.len(),
            resolve_spec(tokens.deep_view().take(i as int), args.deep_view()) == Ok::<
                Code,
                FailureView,
            >(out.deep_view()),
        decreases tokens.len() - i,
    {
        let ghost prefix = tokens.deep_view().take(i + 1);
        assert(prefix.drop_last() == tokens.deep_view().take(i as int));
        assert(prefix.last() == tokens[i as int].deep_view());
        match &tokens[i] {
            Token::Parameter(range) => {
                if !fits(*range, args.len()) {
                    proof {
                        lemma_resolve_prefix_failure(tokens.deep_view(), args.deep_view(), i + 1);
                    }
                    return Err(Failure::MalformedCapture(*range));
                }
                push_captured(&mut out, *range, args);
            },
            token => {
                let ghost before = out.deep_view();
                out.push(token.clone());
                assert(out.deep_view() == before.push(token.deep_view()));
            },
        }
        i += 1;
    }
    assert(tokens.deep_view().take(i as int) == tokens.deep_view());
    Ok(out)
}

/// A substitution that fails on a prefix of the tokens fails alike on all of them.
pub proof fn lemma_resolve_prefix_failure(tokens: Code, args: Code, n: int)
    requires
        0 <= n <= tokens.len(),
        resolve_spec(tokens.take(n), args) is Err,
    ensures
        resolve_spec(tokens, args) == resolve_spec(tokens.take(n), args),
    decreases tokens.len() - n,
{
    if n < tokens.len() {
        assert(tokens.take(n + 1).drop_last() == tokens.take(n));
        lemma_resolve_prefix_failure(tokens, args, n + 1);
    } else {
        assert(tokens.take(n) == tokens);
    }
}

} // verus!
