//! Removal of the arguments that a dissolved container call has captured.

use vstd::prelude::*;
use itertools::Itertools;
use crate::failure::{Failure, FailureView};
use crate::models::{lemma_group_view, Range, Token, TokenView, WTokens};
use crate::resolver::{fits, resolve};
use crate::semantics::{
    captures, expand_spec, first_misfit, flatten_once, keep_where, referenced, resolve_spec,
    retained, Code, Failures,
};
use crate::utils::{lemma_views, splice, views};

verus! {

// ---------------------------------------------------------------------------
// Calls into itertools

/// `s` without the repetitions of its items: of equal items the first stays,
/// and what stays keeps its order.
pub open spec fn first_occurrences(s: Seq<usize>) -> Seq<usize>
    decreases s.len(),
{
    if s.len() == 0 {
        s
    } else {
        let init = first_occurrences(s.drop_last());
        if s.drop_last().contains(s.last()) {
            init
        } else {
            init.push(s.last())
        }
    }
}

/// Whether the items of `s` ascend, equal items allowed.
pub open spec fn ascending(s: Seq<usize>) -> bool {
    forall|i: int, j: int| 0 <= i <= j < s.len() ==> s[i] <= s[j]
}

/// `Itertools::unique` on the items of a vector: the adaptor yields each item
/// the first time it comes and skips it afterwards, so the items that stay
/// are in the order of their first occurrence.
#[verifier::external_body]
fn unique(items: Vec<usize>) -> (kept: Vec<usize>)
    ensures
        kept@ == first_occurrences(items@),
{
    items.into_iter().unique().collect()
}

/// `Itertools::sorted` on the items of a vector: the same items, in ascending
/// order.
#[verifier::external_body]
fn sorted(items: Vec<usize>) -> (ordered: Vec<usize>)
    ensures
        ordered@.to_multiset() == items@.to_multiset(),
        ascending(ordered@),
{
    items.into_iter().sorted().collect()
}

// ---------------------------------------------------------------------------
// Facts about `keep_where`

/// Two conditions that agree on the positions of `s` keep the same elements.
pub proof fn lemma_keep_where_agree<T>(s: Seq<T>, a: spec_fn(int) -> bool, b: spec_fn(int) -> bool)
    requires
        forall|i: int| 0 <= i < s.len() ==> #[trigger] a(i) == b(i),
    ensures
        keep_where(s, a) == keep_where(s, b),
    decreases s.len(),
{
    if s.len() > 0 {
        lemma_keep_where_agree(s.drop_last(), a, b);
    }
}

/// A condition that holds of every position keeps the whole sequence.
pub proof fn lemma_keep_where_all<T>(s: Seq<T>, keep: spec_fn(int) -> bool)
    requires
        forall|i: int| 0 <= i < s.len() ==> #[trigger] keep(i),
    ensures
        keep_where(s, keep) == s,
    decreases s.len(),
{
    if s.len() > 0 {
        lemma_keep_where_all(s.drop_last(), keep);
        assert(s.drop_last().push(s.last()) == s);
    }
}

/// What is kept of a concatenation is what is kept of its parts.
pub proof fn lemma_keep_where_add<T>(a: Seq<T>, b: Seq<T>, keep: spec_fn(int) -> bool)
    ensures
        keep_where(a + b, keep) == keep_where(a, keep) + keep_where(
            b,
            |i: int| keep(i + a.len()),
        ),
    decreases b.len(),
{
    let shifted = |i: int| keep(i + a.len());
    if b.len() == 0 {
        assert(a + b == a);
        assert(keep_where(a, keep) + keep_where(b, shifted) == keep_where(a, keep));
    } else {
        assert((a + b).drop_last() == a + b.drop_last());
        lemma_keep_where_add(a, b.drop_last(), keep);
        if keep((a + b).len() - 1) {
            assert((keep_where(a, keep) + keep_where(b.drop_last(), shifted)).push(b.last())
                == keep_where(a, keep) + keep_where(b.drop_last(), shifted).push(b.last()));
        }
    }
}

/// Where everything up to position `at` is kept, taking the element at `at`
/// out of what is kept is the same as not keeping position `at`.
pub proof fn lemma_keep_where_remove<T>(s: Seq<T>, keep: spec_fn(int) -> bool, at: int)
    requires
        0 <= at < s.len(),
        forall|i: int| 0 <= i <= at ==> #[trigger] keep(i),
    ensures
        at < keep_where(s, keep).len(),
        keep_where(s, keep).remove(at) == keep_where(s, |i: int| keep(i) && i != at),
{
    let less = |i: int| keep(i) && i != at;
    let head = s.subrange(0, at);
    let one = s.subrange(at, at + 1);
    let tail = s.subrange(at + 1, s.len() as int);
    assert(s == head + one + tail);
    lemma_keep_where_add(head + one, tail, keep);
    lemma_keep_where_add(head + one, tail, less);
    lemma_keep_where_add(head, one, less);
    lemma_keep_where_all(head + one, keep);
    lemma_keep_where_all(head, less);
    let shifted = |i: int| less(i + head.len());
    assert(keep_where(one, shifted) == Seq::<T>::empty()) by {
        assert(one.drop_last() == Seq::<T>::empty());
        assert(keep_where(one.drop_last(), shifted) == Seq::<T>::empty());
    }
    lemma_keep_where_agree(
        tail,
        |i: int| keep(i + (head + one).len()),
        |i: int| less(i + (head + one).len()),
    );
    let rest = keep_where(tail, |i: int| keep(i + (head + one).len()));
    assert(keep_where(s, keep) == head + one + rest);
    assert(keep_where(s, less) == head + Seq::<T>::empty() + rest);
    assert((head + one + rest).remove(at) == head + rest);
}

// ---------------------------------------------------------------------------
// The positions to clear

/// Whether `p` is one of `positions`.
pub open spec fn listed(positions: Seq<usize>, p: int) -> bool {
    exists|k: int| 0 <= k < positions.len() && positions[k] == p
}

/// Whether each item of `s` is greater than all that follow it.
pub open spec fn strictly_descending(s: Seq<usize>) -> bool {
    forall|i: int, j: int| 0 <= i < j < s.len() ==> s[i] > s[j]
}

/// What `first_occurrences` keeps: each item of `s`, once.
pub proof fn lemma_first_occurrences(s: Seq<usize>)
    ensures
        first_occurrences(s).no_duplicates(),
        forall|x: usize| first_occurrences(s).contains(x) <==> s.contains(x),
    decreases s.len(),
{
    if s.len() > 0 {
        let init = s.drop_last();
        lemma_first_occurrences(init);
        let kept = first_occurrences(s);
        assert forall|x: usize| kept.contains(x) <==> s.contains(x) by {
            if s.contains(x) {
                let k = choose|k: int| 0 <= k < s.len() && s[k] == x;
                if k < s.len() - 1 {
                    assert(init[k] == x);
                    assert(init.contains(x));
                    assert(first_occurrences(init).contains(x));
                    let at = choose|at: int|
                        0 <= at < first_occurrences(init).len() && first_occurrences(init)[at]
                            == x;
                    assert(kept[at] == x);
                } else if init.contains(x) {
                    let at = choose|at: int|
                        0 <= at < first_occurrences(init).len() && first_occurrences(init)[at]
                            == x;
                    assert(kept[at] == x);
                } else {
                    assert(kept[kept.len() - 1] == x);
                }
            }
            if kept.contains(x) {
                let at = choose|at: int| 0 <= at < kept.len() && kept[at] == x;
                if at < first_occurrences(init).len() {
                    assert(first_occurrences(init)[at] == x);
                    assert(init.contains(x));
                    let k = choose|k: int| 0 <= k < init.len() && init[k] == x;
                    assert(s[k] == x);
                } else {
                    assert(s[s.len() - 1] == x);
                }
            }
        }
        if !init.contains(s.last()) {
            assert forall|i: int, j: int|
                0 <= i < kept.len() && 0 <= j < kept.len() && i != j implies kept[i]
                != kept[j] by {
                if i == kept.len() - 1 && kept[i] == kept[j] {
                    assert(first_occurrences(init)[j] == s.last());
                    assert(first_occurrences(init).contains(s.last()));
                }
                if j == kept.len() - 1 && kept[i] == kept[j] {
                    assert(first_occurrences(init)[i] == s.last());
                    assert(first_occurrences(init).contains(s.last()));
                }
            }
        }
    }
}

/// The positions in `code` of the arguments with the reverse indices
/// `indices`, where the call stands at `end`: each position once, the
/// rightmost first.
pub fn removal_positions(indices: Vec<usize>, end: usize) -> (positions: Vec<usize>)
    requires
        forall|i: int| 0 <= i < indices.len() ==> indices[i] < end,
    ensures
        strictly_descending(positions@),
        forall|p: int|
            listed(positions@, p) <==> exists|k: int|
                0 <= k < indices.len() && p == end - 1 - #[trigger] indices[k],
{
    let ghost given = indices@;
    let distinct = unique(indices);
    proof {
        lemma_first_occurrences(given);
    }
    let mut mapped: Vec<usize> = Vec::new();
    let mut i: usize = 0;
    while i < distinct.len()
        invariant
            i <= distinct.len(),
            mapped.len() == i,
            forall|k: int| 0 <= k < distinct.len() ==> given.contains(#[trigger] distinct[k]),
            forall|k: int| 0 <= k < given.len() ==> #[trigger] given[k] < end,
            forall|k: int| 0 <= k < i ==> #[trigger] mapped[k] == end - 1 - distinct[k],
        decreases distinct.len() - i,
    {
        assert(given.contains(distinct[i as int]));
        mapped.push(end - (distinct[i] + 1));
        i += 1;
    }
    let ghost unordered = mapped@;
    assert(unordered.no_duplicates());
    let ordered = sorted(mapped);
    proof {
        unordered.lemma_multiset_has_no_duplicates();
        ordered@.lemma_multiset_has_no_duplicates_conv();
        ordered@.to_multiset_ensures();
        unordered.to_multiset_ensures();
    }
    let mut positions: Vec<usize> = Vec::new();
    let mut j: usize = ordered.len();
    while j > 0
        invariant
            j <= ordered.len(),
            positions.len() == ordered.len() - j,
            forall|k: int|
                0 <= k < positions.len() ==> #[trigger] positions[k] == ordered[ordered.len() - 1
                    - k],
        decreases j,
    {
        j -= 1;
        positions.push(ordered[j]);
    }
    proof {
        assert(strictly_descending(positions@)) by {
            assert forall|a: int, b: int| 0 <= a < b < positions.len() implies positions[a]
                > positions[b] by {
                let x = ordered.len() - 1 - a;
                let y = ordered.len() - 1 - b;
                assert(ordered[y] <= ordered[x]);
                assert(ordered[y] != ordered[x]);
            }
        }
        assert forall|p: int|
            listed(positions@, p) <==> exists|k: int|
                0 <= k < given.len() && p == end - 1 - #[trigger] given[k] by {
            if listed(positions@, p) {
                let k = choose|k: int| 0 <= k < positions.len() && positions[k] == p;
                assert(ordered@.contains(ordered[ordered.len() - 1 - k]));
                assert(ordered@.to_multiset().count(p as usize) > 0);
                assert(unordered.to_multiset().count(p as usize) > 0);
                assert(unordered.contains(p as usize));
                let u = choose|u: int| 0 <= u < unordered.len() && unordered[u] == p as usize;
                assert(given.contains(distinct[u]));
                let g = choose|g: int| 0 <= g < given.len() && given[g] == distinct[u];
                assert(p == end - 1 - given[g]);
            }
            if exists|k: int| 0 <= k < given.len() && p == end - 1 - #[trigger] given[k] {
                let g = choose|g: int| 0 <= g < given.len() && p == end - 1 - #[trigger] given[g];
                assert(given.contains(given[g]));
                assert(distinct@.contains(given[g]));
                let u = choose|u: int| 0 <= u < distinct.len() && distinct[u] == given[g];
                assert(unordered[u] == p);
                assert(unordered.contains(p as usize));
                assert(unordered.to_multiset().count(p as usize) > 0);
                assert(ordered@.to_multiset().count(p as usize) > 0);
                assert(ordered@.contains(p as usize));
                let o = choose|o: int| 0 <= o < ordered.len() && ordered[o] == p as usize;
                assert(positions[ordered.len() - 1 - o] == p);
            }
        }
    }
    positions
}

/// Takes the tokens at `positions` out of `code`, the rightmost first, so
/// that no removal moves a token that is still to be removed.
pub fn remove_all(code: &mut WTokens, positions: &Vec<usize>)
    requires
        forall|i: int| 0 <= i < positions.len() ==> positions[i] < old(code).len(),
        strictly_descending(positions@),
    ensures
        final(code)@ == keep_where(old(code)@, |p: int| !listed(positions@, p)),
{
    let ghost whole = code@;
    let mut j: usize = 0;
    proof {
        lemma_keep_where_all(whole, |p: int| !listed(positions@.take(0), p));
    }
    while j < positions.len()
        invariant
            j <= positions.len(),
            whole == old(code)@,
            forall|i: int| 0 <= i < positions.len() ==> positions[i] < whole.len(),
            strictly_descending(positions@),
            code@ == keep_where(whole, |p: int| !listed(positions@.take(j as int), p)),
        decreases positions.len() - j,
    {
        let at = positions[j];
        proof {
            let before = positions@.take(j as int);
            let after = positions@.take(j + 1);
            let keep = |p: int| !listed(before, p);
            assert forall|i: int| 0 <= i <= at implies #[trigger] keep(i) by {
                if listed(before, i) {
                    let k = choose|k: int| 0 <= k < before.len() && before[k] == i;
                    assert(positions[k] > positions[j as int]);
                }
            }
            lemma_keep_where_remove(whole, keep, at as int);
            let next = |p: int| !listed(after, p);
            assert forall|i: int| 0 <= i < whole.len() implies (keep(i) && i != at)
                == #[trigger] next(i) by {
                assert(after == before.push(at));
                if listed(before, i) {
                    let k = choose|k: int| 0 <= k < before.len() && before[k] == i;
                    assert(after[k] == i);
                }
                if i == at {
                    assert(after[j as int] == i);
                }
                if listed(after, i) && i != at {
                    let k = choose|k: int| 0 <= k < after.len() && after[k] == i;
                    assert(before[k] == i);
                }
            }
            lemma_keep_where_agree(whole, |i: int| keep(i) && i != at, next);
        }
        code.remove(at);
        j += 1;
    }
    assert(positions@.take(j as int) == positions@);
}

// ---------------------------------------------------------------------------
// The arguments that the visited cases capture

/// Replaces each group of `tokens` by its contents, one level deep.
pub fn flatten(tokens: &WTokens) -> (flat: WTokens)
    ensures
        flat.deep_view() == flatten_once(tokens.deep_view()),
{
    let mut flat: WTokens = Vec::new();
    let mut i: usize = 0;
    assert(tokens.deep_view().take(0) == Seq::<TokenView>::empty());
    assert(flat.deep_view() == Seq::<TokenView>::empty());
    while i < tokens.len()
        invariant
            i <= tokens.len(),
            flat.deep_view() == flatten_once(tokens.deep_view().take(i as int)),
        decreases tokens.len() - i,
    {
        let ghost prefix = tokens.deep_view().take(i + 1);
        assert(prefix.drop_last() == tokens.deep_view().take(i as int));
        assert(prefix.last() == tokens[i as int].deep_view());
        match &tokens[i] {
            Token::Group(content) => {
                let ghost before = flat.deep_view();
                let mut j: usize = 0;
                while j < content.len()
                    invariant
                        j <= content.len(),
                        flat.deep_view() == before + content.deep_view().take(j as int),
                    decreases content.len() - j,
                {
                    let ghost so_far = flat.deep_view();
                    flat.push(content[j].clone());
                    assert(flat.deep_view() == so_far.push(content[j as int].deep_view()));
                    assert(content.deep_view().take(j + 1) == content.deep_view().take(
                        j as int,
                    ).push(content[j as int].deep_view()));
                    j += 1;
                }
                assert(content.deep_view().take(j as int) == content.deep_view());
                proof {
                    lemma_group_view(*content);
                }
            },
            token => {
                let ghost before = flat.deep_view();
                flat.push(token.clone());
                assert(flat.deep_view() == before.push(token.deep_view()));
                assert(before.push(token.deep_view()) == before + seq![token.deep_view()]);
            },
        }
        i += 1;
    }
    assert(tokens.deep_view().take(i as int) == tokens.deep_view());
    flat
}

/// A misfit in a prefix of the tokens is the first misfit of all of them.
pub proof fn lemma_first_misfit_prefix(tokens: Code, len: int, n: int)
    requires
        0 <= n <= tokens.len(),
        first_misfit(tokens.take(n), len) is Some,
    ensures
        first_misfit(tokens, len) == first_misfit(tokens.take(n), len),
    decreases tokens.len() - n,
{
    if n < tokens.len() {
        assert(tokens.take(n + 1).drop_last() == tokens.take(n));
        lemma_first_misfit_prefix(tokens, len, n + 1);
    } else {
        assert(tokens.take(n) == tokens);
    }
}

/// Lists the reverse indices of the arguments, among `len` of them, that the
/// parameters of `tokens` capture; an index may come more than once. The
/// first parameter that does not fit `len` arguments is a failure.
fn captured_indices(tokens: &WTokens, len: usize) -> (outcome: Result<Vec<usize>, Failure>)
    ensures
        match outcome {
            Ok(indices) => {
                &&& first_misfit(tokens.deep_view(), len as int) is None
                &&& forall|k: int| 0 <= k < indices.len() ==> indices[k] < len
                &&& forall|index: int|
                    #[trigger] listed(indices@, index) <==> referenced(tokens.deep_view(), len as int, index)
            },
            Err(failure) => {
                &&& first_misfit(tokens.deep_view(), len as int) matches Some(range)
                &&& failure == Failure::MalformedCapture(range)
            },
        },
{
    let ghost view = tokens.deep_view();
    let mut indices: Vec<usize> = Vec::new();
    let mut i: usize = 0;
    assert(view.take(0) == Seq::<TokenView>::empty());
    while i < tokens.len()
        invariant
            i <= tokens.len(),
            view == tokens.deep_view(),
            first_misfit(view.take(i as int), len as int) is None,
            forall|k: int| 0 <= k < indices.len() ==> indices[k] < len,
            forall|index: int|
                #[trigger] listed(indices@, index) <==> referenced(view.take(i as int), len as int, index),
        decreases tokens.len() - i,
    {
        let ghost prefix = view.take(i as int);
        let ghost longer = view.take(i + 1);
        let ghost before = indices@;
        assert(longer.drop_last() == prefix);
        assert(longer.last() == tokens[i as int].deep_view());
        match &tokens[i] {
            Token::Parameter(range) => {
                if !fits(*range, len) {
                    proof {
                        lemma_first_misfit_prefix(view, len as int, i + 1);
                    }
                    return Err(Failure::MalformedCapture(*range));
                }
                let (low, high): (usize, usize) = match *range {
                    Range::Full(start, end) => (start, end),
                    Range::From(start) => (start, if len > 0 { len - 1 } else { 0 }),
                    Range::To(end) => (0, end),
                };
                let empty = match *range {
                    Range::Full(start, end) => start > end,
                    Range::From(start) => start >= len,
                    Range::To(_) => false,
                };
                if !empty {
                    let mut index: usize = low;
                    while index <= high
                        invariant
                            low <= index <= high + 1,
                            high < len,
                            forall|k: int| 0 <= k < indices.len() ==> indices[k] < len,
                            forall|x: int|
                                #[trigger] listed(indices@, x) <==> listed(before, x) || low <= x < index,
                        decreases high + 1 - index,
                    {
                        let ghost so_far = indices@;
                        indices.push(index);
                        proof {
                            assert(indices@ == so_far.push(index));
                            assert forall|x: int| #[trigger] listed(indices@, x) implies listed(
                                before,
                                x,
                            ) || low <= x < index + 1 by {
                                let k = choose|k: int| 0 <= k < indices@.len() && indices@[k] == x;
                                if k < so_far.len() {
                                    assert(so_far[k] == x);
                                    assert(listed(so_far, x));
                                }
                            }
                            assert forall|x: int|
                                listed(before, x) || low <= x < index + 1 implies #[trigger] listed(
                                indices@,
                                x,
                            ) by {
                                if x == index {
                                    assert(indices@[so_far.len() as int] == x);
                                } else {
                                    assert(listed(so_far, x));
                                    let k = choose|k: int|
                                        0 <= k < so_far.len() && so_far[k] == x;
                                    assert(indices@[k] == x);
                                }
                            }
                        }
                        index += 1;
                    }
                }
                proof {
                    assert forall|x: int|
                        #[trigger] listed(indices@, x) <==> referenced(longer, len as int, x) by {
                        if referenced(prefix, len as int, x) {
                            let k = choose|k: int|
                                0 <= k < prefix.len() && (#[trigger] prefix[k] matches TokenView::Parameter(
                                    r,
                                ) && captures(r, len as int, x));
                            assert(longer[k] == prefix[k]);
                        }
                        if captures(*range, len as int, x) {
                            assert(longer[i as int] == TokenView::Parameter(*range));
                        }
                        if referenced(longer, len as int, x) {
                            let k = choose|k: int|
                                0 <= k < longer.len() && (#[trigger] longer[k] matches TokenView::Parameter(
                                    r,
                                ) && captures(r, len as int, x));
                            if k < i {
                                assert(prefix[k] == longer[k]);
                            }
                        }
                    }
                }
            },
            _ => {
                proof {
                    assert forall|x: int|
                        referenced(prefix, len as int, x) <==> referenced(
                            longer,
                            len as int,
                            x,
                        ) by {
                        if referenced(prefix, len as int, x) {
                            let k = choose|k: int|
                                0 <= k < prefix.len() && (#[trigger] prefix[k] matches TokenView::Parameter(
                                    r,
                                ) && captures(r, len as int, x));
                            assert(longer[k] == prefix[k]);
                        }
                        if referenced(longer, len as int, x) {
                            let k = choose|k: int|
                                0 <= k < longer.len() && (#[trigger] longer[k] matches TokenView::Parameter(
                                    r,
                                ) && captures(r, len as int, x));
                            assert(prefix[k] == longer[k]);
                        }
                    }
                }
            },
        }
        i += 1;
    }
    assert(view.take(i as int) == view);
    Ok(indices)
}

/// The views of what is kept are what is kept of the views.
pub proof fn lemma_keep_where_views(tokens: Seq<Token>, keep: spec_fn(int) -> bool)
    ensures
        views(keep_where(tokens, keep)) == keep_where(views(tokens), keep),
    decreases tokens.len(),
{
    if tokens.len() == 0 {
        assert(views(tokens) == Seq::<TokenView>::empty());
        assert(views(keep_where(tokens, keep)) == Seq::<TokenView>::empty());
    } else {
        lemma_keep_where_views(tokens.drop_last(), keep);
        assert(views(tokens).drop_last() == views(tokens.drop_last()));
        if keep(tokens.len() - 1) {
            assert(views(keep_where(tokens.drop_last(), keep).push(tokens.last())) == views(
                keep_where(tokens.drop_last(), keep),
            ).push(tokens.last().deep_view()));
        }
    }
}

/// Expands a container call that stands at `span.end` in `code`, with the
/// tokens `arr` of `span` as its arguments.
///
/// `body`, with the arguments put in, takes the place of the call. Then each
/// argument that a parameter of `visited` captures, or a parameter in a group
/// of `visited`, is taken out of `code`; the other arguments stay. Where a
/// parameter names an argument that the call does not have, `code` is left
/// as it was.
pub fn expand_call(
    code: &mut WTokens,
    body: &WTokens,
    visited: &WTokens,
    span: &std::ops::Range<usize>,
    arr: &WTokens,
) -> (outcome: Result<(), Failure>)
    requires
        span.start <= span.end < old(code).len(),
        arr.deep_view() == old(code).deep_view().subrange(span.start as int, span.end as int),
    ensures
        match outcome {
            Ok(()) => expand_spec(
                body.deep_view(),
                visited.deep_view(),
                old(code).deep_view(),
                span.start as int,
                span.end as int,
            ) == Ok::<Code, Failures>(final(code).deep_view()),
            Err(failure) => {
                &&& expand_spec(
                    body.deep_view(),
                    visited.deep_view(),
                    old(code).deep_view(),
                    span.start as int,
                    span.end as int,
                ) == Err::<Code, Failures>(seq![failure.deep_view()])
                &&& *final(code) == *old(code)
            },
        },
{
    let replacement = match resolve(body, arr) {
        Ok(tokens) => tokens,
        Err(failure) => {
            return Err(failure);
        },
    };
    let flat = flatten(visited);
    let indices = match captured_indices(&flat, arr.len()) {
        Ok(indices) => indices,
        Err(failure) => {
            return Err(failure);
        },
    };
    let ghost given = indices@;
    let ghost before = code.deep_view();
    let ghost start = span.start as int;
    let ghost end = span.end as int;
    let ghost len = arr.len() as int;
    let ghost put = replacement.deep_view();
    let positions = removal_positions(indices, span.end);
    splice(code, span.end, span.end + 1, replacement);
    let ghost joined = code@;
    proof {
        assert(code.deep_view().len() == joined.len());
        assert(joined.len() >= end);
        assert forall|i: int| 0 <= i < positions.len() implies positions[i] < joined.len() by {
            assert(listed(positions@, positions[i] as int));
            let k = choose|k: int|
                0 <= k < given.len() && positions[i] == end - 1 - #[trigger] given[k];
        }
    }
    remove_all(code, &positions);
    proof {
        let keep = |p: int| !listed(positions@, p);
        let head = before.subrange(0, start);
        let args = before.subrange(start, end);
        let rest = put + before.subrange(end + 1, before.len() as int);
        lemma_views(*code);
        lemma_keep_where_views(joined, keep);
        assert(views(joined) == head + args + rest);
        lemma_keep_where_add(head + args, rest, keep);
        lemma_keep_where_add(head, args, keep);
        assert forall|p: int| 0 <= p < head.len() implies #[trigger] keep(p) by {
            if listed(positions@, p) {
                let k = choose|k: int| 0 <= k < given.len() && p == end - 1 - #[trigger] given[k];
            }
        }
        lemma_keep_where_all(head, keep);
        let behind = |i: int| keep(i + (head + args).len());
        assert forall|i: int| 0 <= i < rest.len() implies #[trigger] behind(i) by {
            if listed(positions@, i + end) {
                let k = choose|k: int|
                    0 <= k < given.len() && i + end == end - 1 - #[trigger] given[k];
            }
        }
        lemma_keep_where_all(rest, behind);
        let within = |i: int| keep(i + head.len());
        let unreferenced = |i: int| !referenced(flat.deep_view(), args.len() as int, args.len() - 1 - i);
        assert forall|i: int| 0 <= i < args.len() implies #[trigger] within(i) == unreferenced(
            i,
        ) by {
            let index = len - 1 - i;
            if listed(positions@, i + start) {
                let k = choose|k: int|
                    0 <= k < given.len() && i + start == end - 1 - #[trigger] given[k];
                assert(given[k] == index);
                assert(listed(given, index));
            }
            if referenced(flat.deep_view(), len, index) {
                assert(listed(given, index));
                let k = choose|k: int| 0 <= k < given.len() && given[k] == index;
                assert(i + start == end - 1 - given[k]);
            }
        }
        lemma_keep_where_agree(args, within, unreferenced);
        assert(retained(args, flat.deep_view()) == keep_where(args, unreferenced));
        assert(code.deep_view() == keep_where(views(joined), keep));
        assert(keep_where(views(joined), keep) == keep_where(head + args, keep) + keep_where(
            rest,
            behind,
        ));
        assert(keep_where(head + args, keep) == head + keep_where(args, within));
        assert(code.deep_view() == head + retained(args, flat.deep_view()) + rest);
        assert(head + retained(args, flat.deep_view()) + rest == head + retained(
            args,
            flat.deep_view(),
        ) + put + before.subrange(end + 1, before.len() as int));
        assert(args == arr.deep_view());
        assert(resolve_spec(body.deep_view(), args) == Ok::<Code, FailureView>(put));
    }
    Ok(())
}

} // verus!
