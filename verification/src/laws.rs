//! What holds of evaluation, whatever the program: each law is proved from
//! the definitions of the semantics.

use vstd::prelude::*;
use crate::cleanup::lemma_keep_where_all;
use crate::failure::FailureView;
use crate::models::{truthy, CaseView, FuncView, Range, SectionView, TokenView, TRUE_BITS};
use crate::semantics::{
    all_ok, balance, captures, chosen_result, collect_failures, collect_values, dissolve_spec,
    eval_spec, expand, expand_spec, first_call, first_misfit, first_pair, flatten_once, has_call,
    has_pair, is_first_call, is_first_pair, is_pair, normalize_all, normalize_spec, range_fits,
    reduce_spec, referenced, registered, resolve_spec, results_of, retained, section_outcome,
    select_spec, spliced, step_spec, stored_cases, visited_results, Code, Failures, Machine,
};
use crate::utils::{lemma_first_call, lemma_first_pair, lemma_has_pair};

verus! {

/// Whether a sequence holds no call, at its top level or in any group.
pub open spec fn call_free(code: Code) -> bool
    decreases code, 1int,
{
    forall|i: int| 0 <= i < code.len() ==> token_call_free(#[trigger] code[i])
}

/// Whether a token is no call and, where it is a group, holds none.
pub open spec fn token_call_free(token: TokenView) -> bool
    decreases token, 0int,
{
    match token {
        TokenView::Call(_) => false,
        TokenView::Group(content) => call_free(content),
        _ => true,
    }
}

/// A sequence that holds no call at any depth evaluates to itself, within
/// any budget.
pub proof fn law_call_free_is_fixed(m: Machine, code: Code, fuel: nat)
    requires
        call_free(code),
    ensures
        eval_spec(m, code, fuel) == Ok::<Code, Failures>(code),
    decreases code,
{
    let parts = normalize_all(m, code, fuel);
    assert forall|i: int| 0 <= i < parts.len() implies #[trigger] parts[i] == Ok::<
        TokenView,
        Failures,
    >(code[i]) by {
        assert(token_call_free(code[i]));
        match code[i] {
            TokenView::Group(content) => {
                law_call_free_is_fixed(m, content, fuel);
            },
            _ => {},
        }
    }
    assert(all_ok(parts));
    assert(collect_values(parts) =~= code);
    assert(!has_call(code)) by {
        if has_call(code) {
            let i = choose|i: int| 0 <= i < code.len() && code[i] is Call;
            assert(token_call_free(code[i]));
        }
    }
}

/// Evaluation is idempotent on what it has reduced in full: where the result
/// of an evaluation holds no call at any depth, evaluating the result gives
/// the result again.
pub proof fn law_eval_idempotent(m: Machine, tokens: Code, fuel: nat)
    requires
        eval_spec(m, tokens, fuel) is Ok,
        call_free(eval_spec(m, tokens, fuel)->Ok_0),
    ensures
        eval_spec(m, eval_spec(m, tokens, fuel)->Ok_0, fuel) == eval_spec(m, tokens, fuel),
{
    law_call_free_is_fixed(m, eval_spec(m, tokens, fuel)->Ok_0, fuel);
}

/// A reduction that succeeds leaves no call at the top level.
pub proof fn law_reduced_has_no_call(m: Machine, code: Code, fuel: nat)
    requires
        reduce_spec(m, code, fuel) is Ok,
    ensures
        !has_call(reduce_spec(m, code, fuel)->Ok_0),
    decreases fuel,
{
    if has_call(code) && fuel > 0 {
        match step_spec(m, code, (fuel - 1) as nat) {
            Ok(next) => {
                law_reduced_has_no_call(m, next, (fuel - 1) as nat);
            },
            Err(_) => {},
        }
    }
}

/// An evaluation that succeeds leaves no call at the top level.
pub proof fn law_evaluated_has_no_call(m: Machine, tokens: Code, fuel: nat)
    requires
        eval_spec(m, tokens, fuel) is Ok,
    ensures
        !has_call(eval_spec(m, tokens, fuel)->Ok_0),
{
    let parts = normalize_all(m, tokens, fuel);
    law_reduced_has_no_call(m, collect_values(parts), fuel);
}

// ---------------------------------------------------------------------------
// Reverse indexing

/// Parameters count the arguments from the call outward: reverse index 0 is
/// the last argument, the greatest index the first. A range from an index on
/// captures the arguments from the first up to that index, a range up to an
/// index those from that index to the last, each in the order of the
/// arguments.
pub proof fn law_reverse_indexing(args: Code, index: usize)
    requires
        index < args.len(),
    ensures
        expand(Range::Full(index, index), args) == seq![args[args.len() - 1 - index]],
        expand(Range::From(index), args) == args.take(args.len() - index),
        expand(Range::To(index), args) == args.skip(args.len() - 1 - index),
        expand(Range::From(0), args) == args,
        index == args.len() - 1 ==> expand(Range::To(index), args) == args,
        resolve_spec(seq![TokenView::Parameter(Range::Full(index, index))], args) == Ok::<
            Code,
            FailureView,
        >(seq![args[args.len() - 1 - index]]),
{
    let one = seq![TokenView::Parameter(Range::Full(index, index))];
    assert(one.drop_last() == Seq::<TokenView>::empty());
    assert(one.last() == TokenView::Parameter(Range::Full(index, index)));
    assert(resolve_spec(one.drop_last(), args) == Ok::<Code, FailureView>(Seq::empty()));
    assert(range_fits(Range::Full(index, index), args.len() as int));
    assert(Seq::<TokenView>::empty() + expand(Range::Full(index, index), args) == expand(
        Range::Full(index, index),
        args,
    ));
    assert(expand(Range::Full(index, index), args) == seq![args[args.len() - 1 - index]]);
}

/// A range that reaches past the first argument captures nothing where it is
/// open to the far end, and is a misfit otherwise.
pub proof fn law_ranges_past_the_arguments(args: Code, index: usize)
    requires
        index >= args.len(),
    ensures
        range_fits(Range::From(index), args.len() as int),
        expand(Range::From(index), args) == Seq::<TokenView>::empty(),
        !range_fits(Range::To(index), args.len() as int),
        !range_fits(Range::Full(0, index), args.len() as int),
{
}

// ---------------------------------------------------------------------------
// Grouping

/// Whether the parentheses of a sequence match each other: as many close as
/// open, and none closes before its partner opens.
pub open spec fn balanced(code: Code) -> bool {
    &&& balance(code, 0, code.len() as int) == 0
    &&& forall|k: int| 0 <= k <= code.len() ==> balance(code, 0, k) >= 0
}

/// The balance behind an opening parenthesis is one more than that of what
/// follows it.
proof fn lemma_balance_inside(before: Code, inside: Code, after: Code, k: int)
    requires
        0 <= k <= inside.len(),
    ensures
        balance(
            before + seq![TokenView::Open] + inside + seq![TokenView::Close] + after,
            before.len() as int,
            before.len() + 1 + k,
        ) == 1 + balance(inside, 0, k),
    decreases k,
{
    let whole = before + seq![TokenView::Open] + inside + seq![TokenView::Close] + after;
    let open = before.len() as int;
    if k == 0 {
        assert(balance(whole, open, open) == 0);
        assert(whole[open] == TokenView::Open);
    } else {
        lemma_balance_inside(before, inside, after, k - 1);
        assert(whole[open + k] == inside[k - 1]);
    }
}

/// Grouping has priority: as long as a sequence holds a matched pair of
/// parentheses, a round of reduction dissolves no call. It evaluates what
/// stands in the first matched pair, and puts what that comes to in the place
/// of the pair.
pub proof fn law_pairs_before_calls(m: Machine, code: Code, open: int, close: int, fuel: nat)
    requires
        is_pair(code, open, close),
    ensures
        has_pair(code),
        step_spec(m, code, fuel) == match eval_spec(
            m,
            code.subrange(first_pair(code).0 + 1, first_pair(code).1),
            fuel,
        ) {
            Ok(reduced) => Ok::<Code, Failures>(
                spliced(code, first_pair(code).0, first_pair(code).1 + 1, reduced),
            ),
            Err(failures) => Err(failures),
        },
{
    lemma_has_pair(code, open, close);
}

/// Grouping has priority: in `before ( inside ) after`, where the
/// parentheses shown are the first matched pair, a round of reduction evaluates
/// `inside` and puts what it comes to in the place of the parenthesized
/// span. No call is dissolved in that round, wherever it stands.
pub proof fn law_grouping_priority(m: Machine, before: Code, inside: Code, after: Code, fuel: nat)
    requires
        forall|i: int| 0 <= i < before.len() ==> !(before[i] is Open),
        balanced(inside),
        has_call(before + seq![TokenView::Open] + inside + seq![TokenView::Close] + after),
    ensures
        reduce_spec(
            m,
            before + seq![TokenView::Open] + inside + seq![TokenView::Close] + after,
            fuel + 1,
        ) == match eval_spec(m, inside, fuel) {
            Ok(reduced) => reduce_spec(m, before + reduced + after, fuel),
            Err(failures) => Err(failures),
        },
{
    let whole = before + seq![TokenView::Open] + inside + seq![TokenView::Close] + after;
    let open = before.len() as int;
    let close = open + 1 + inside.len();
    assert(whole[open] == TokenView::Open);
    assert(whole[close] == TokenView::Close);
    assert forall|i: int| 0 <= i < open implies !(whole[i] is Open) by {
        assert(whole[i] == before[i]);
    }
    assert forall|i: int| open < i <= close implies balance(whole, open, i) > 0 by {
        lemma_balance_inside(before, inside, after, i - open - 1);
    }
    lemma_balance_inside(before, inside, after, inside.len() as int);
    assert(balance(whole, open, close + 1) == 0);
    assert(is_first_pair(whole, open, close));
    lemma_first_pair(whole, open, close);
    assert(whole.subrange(open + 1, close) == inside);
    assert forall|reduced: Code| spliced(whole, open, close + 1, reduced) == before + reduced
        + after by {
        assert(whole.subrange(0, open) == before);
        assert(whole.subrange(close + 1, whole.len() as int) == after);
    }
    assert(step_spec(m, whole, fuel) == match eval_spec(m, inside, fuel) {
        Ok(reduced) => Ok::<Code, Failures>(before + reduced + after),
        Err(failures) => Err(failures),
    });
}

// ---------------------------------------------------------------------------
// The choice among the cases of a container

/// A chosen case lies at or behind the case that the choice started from,
/// and within the list; where it is not that case, the choice from the next
/// case on is the same.
proof fn lemma_select_at(
    m: Machine,
    cases: Seq<CaseView>,
    args: Code,
    fuel: nat,
    from: int,
    at: int,
)
    requires
        0 <= from,
        select_spec(m, cases, args, fuel, from) == Ok::<Option<int>, Failures>(Some(at)),
    ensures
        from <= at < cases.len(),
        at != from ==> select_spec(m, cases, args, fuel, from + 1) == Ok::<
            Option<int>,
            Failures,
        >(Some(at)),
    decreases cases.len() - from,
{
    if from < cases.len() {
        match resolve_spec(cases[from].0, args) {
            Ok(condition) => match eval_spec(m, condition, fuel) {
                Ok(reduced) => {
                    if !truthy(reduced) {
                        lemma_select_at(m, cases, args, fuel, from + 1, at);
                    }
                },
                Err(_) => {},
            },
            Err(_) => {},
        }
    }
}

/// The choice among cases goes by the cases from `from` up to the chosen one
/// alone: a list that agrees there chooses alike.
proof fn lemma_select_agree(
    m: Machine,
    cases: Seq<CaseView>,
    others: Seq<CaseView>,
    args: Code,
    fuel: nat,
    from: int,
    at: int,
)
    requires
        0 <= from,
        select_spec(m, cases, args, fuel, from) == Ok::<Option<int>, Failures>(Some(at)),
        at < others.len(),
        forall|i: int| from <= i <= at ==> #[trigger] cases[i] == others[i],
    ensures
        select_spec(m, others, args, fuel, from) == Ok::<Option<int>, Failures>(Some(at)),
    decreases cases.len() - from,
{
    lemma_select_at(m, cases, args, fuel, from, at);
    assert(cases[from] == others[from]);
    match resolve_spec(cases[from].0, args) {
        Ok(condition) => match eval_spec(m, condition, fuel) {
            Ok(reduced) => {
                if !truthy(reduced) {
                    lemma_select_at(m, cases, args, fuel, from + 1, at);
                    lemma_select_agree(m, cases, others, args, fuel, from + 1, at);
                }
            },
            Err(_) => {},
        },
        Err(_) => {},
    }
}

/// The results of the first cases of a list go by those cases alone.
proof fn lemma_results_agree(cases: Seq<CaseView>, others: Seq<CaseView>, n: int)
    requires
        0 <= n <= cases.len(),
        n <= others.len(),
        forall|i: int| 0 <= i < n ==> cases[i] == others[i],
    ensures
        cases.take(n) == others.take(n),
{
    assert(cases.take(n) =~= others.take(n));
}

/// The first case that holds decides, and the cases behind it have no part
/// in the outcome: a list of cases that is the same up to the chosen case
/// has the same case chosen, the same results visited and the same result
/// put in the place of the call, whatever its later conditions and results
/// are. Their conditions are never evaluated.
pub proof fn law_short_circuit(
    m: Machine,
    cases: Seq<CaseView>,
    others: Seq<CaseView>,
    args: Code,
    fuel: nat,
    at: int,
)
    requires
        select_spec(m, cases, args, fuel, 0) == Ok::<Option<int>, Failures>(Some(at)),
        at < others.len(),
        forall|i: int| 0 <= i <= at ==> cases[i] == others[i],
    ensures
        select_spec(m, others, args, fuel, 0) == select_spec(m, cases, args, fuel, 0),
        visited_results(others, Some(at)) == visited_results(cases, Some(at)),
        chosen_result(others, Some(at)) == chosen_result(cases, Some(at)),
{
    lemma_select_at(m, cases, args, fuel, 0, at);
    lemma_select_agree(m, cases, others, args, fuel, 0, at);
    lemma_results_agree(cases, others, at + 1);
}

/// Where the condition of the first case holds, the first case is chosen.
pub proof fn law_first_case_wins(m: Machine, cases: Seq<CaseView>, args: Code, fuel: nat)
    requires
        cases.len() > 0,
        resolve_spec(cases[0].0, args) is Ok,
        eval_spec(m, resolve_spec(cases[0].0, args)->Ok_0, fuel) is Ok,
        truthy(eval_spec(m, resolve_spec(cases[0].0, args)->Ok_0, fuel)->Ok_0),
    ensures
        select_spec(m, cases, args, fuel, 0) == Ok::<Option<int>, Failures>(Some(0)),
        visited_results(cases, Some(0)) == cases[0].1,
        chosen_result(cases, Some(0)) == cases[0].1,
{
    assert(cases.take(1).drop_last() == Seq::<CaseView>::empty());
    assert(cases.take(1).last() == cases[0]);
    assert(results_of(cases.take(1).drop_last()) == Seq::<TokenView>::empty());
    assert(Seq::<TokenView>::empty() + cases[0].1 == cases[0].1);
}

// ---------------------------------------------------------------------------
// The default case

/// The condition that always holds evaluates to itself and is true.
proof fn lemma_true_condition(m: Machine, args: Code, fuel: nat)
    ensures
        resolve_spec(seq![TokenView::Value(TRUE_BITS)], args) == Ok::<Code, FailureView>(
            seq![TokenView::Value(TRUE_BITS)],
        ),
        eval_spec(m, seq![TokenView::Value(TRUE_BITS)], fuel) == Ok::<Code, Failures>(
            seq![TokenView::Value(TRUE_BITS)],
        ),
        truthy(seq![TokenView::Value(TRUE_BITS)]),
{
    let condition = seq![TokenView::Value(TRUE_BITS)];
    assert(condition.drop_last() == Seq::<TokenView>::empty());
    assert(resolve_spec(condition.drop_last(), args) == Ok::<Code, FailureView>(Seq::empty()));
    assert(Seq::<TokenView>::empty().push(condition.last()) == condition);
    assert(call_free(condition));
    law_call_free_is_fixed(m, condition, fuel);
}

/// Where the last case is the default, a choice from any case on that does
/// not fail chooses a case.
proof fn lemma_default_chosen(m: Machine, cases: Seq<CaseView>, args: Code, fuel: nat, from: int)
    requires
        0 <= from < cases.len(),
        cases.last().0 == seq![TokenView::Value(TRUE_BITS)],
    ensures
        select_spec(m, cases, args, fuel, from) matches Ok(chosen) ==> chosen is Some,
    decreases cases.len() - from,
{
    if from < cases.len() - 1 {
        lemma_default_chosen(m, cases, args, fuel, from + 1);
    } else {
        lemma_true_condition(m, args, fuel);
    }
}

/// A container is total: the cases that a definition registers end with the
/// default, so a dissolve that does not fail always finds a case that holds.
pub proof fn law_default_case_holds(m: Machine, section: SectionView, args: Code, fuel: nat)
    ensures
        select_spec(m, stored_cases(section), args, fuel, 0) matches Ok(chosen) ==> chosen
            is Some,
{
    lemma_default_chosen(m, stored_cases(section), args, fuel, 0);
}

/// A container defined without cases of its own dissolves to its default
/// body, whatever its arguments are: the body with the arguments put in
/// stands for the call, and the arguments that the body captures go.
pub proof fn law_container_totality(
    m: Machine,
    name: Seq<char>,
    section: SectionView,
    code: Code,
    start: int,
    end: int,
    fuel: nat,
)
    requires
        section.cases is None || section.cases == Some(Seq::<CaseView>::empty()),
        m.containers.contains_key(name),
        m.containers[name] == stored_cases(section),
    ensures
        dissolve_spec(m, code, FuncView::Container(name), start, end, fuel) == expand_spec(
            section.default_case,
            section.default_case,
            code,
            start,
            end,
        ),
{
    let cases = stored_cases(section);
    let args = code.subrange(start, end);
    assert(cases == seq![(seq![TokenView::Value(TRUE_BITS)], section.default_case)]);
    lemma_true_condition(m, args, fuel);
    law_first_case_wins(m, cases, args, fuel);
}

/// Whether a sequence holds neither a group nor a parameter.
pub open spec fn is_flat(code: Code) -> bool {
    forall|i: int| 0 <= i < code.len() ==> !(#[trigger] code[i] is Group) && !(code[i] is Parameter)
}

/// What holds of a sequence without groups and parameters: flattening and
/// substitution leave it as it is, and no parameter of it captures anything.
proof fn lemma_flat(body: Code, args: Code)
    requires
        is_flat(body),
    ensures
        flatten_once(body) == body,
        resolve_spec(body, args) == Ok::<Code, FailureView>(body),
        first_misfit(body, args.len() as int) is None,
        forall|index: int| !referenced(body, args.len() as int, index),
    decreases body.len(),
{
    if body.len() > 0 {
        assert(is_flat(body.drop_last())) by {
            assert forall|i: int| 0 <= i < body.drop_last().len() implies !(
            #[trigger] body.drop_last()[i] is Group) && !(body.drop_last()[i] is Parameter) by {
                assert(body.drop_last()[i] == body[i]);
            }
        }
        let init = body.drop_last();
        let last = body.last();
        lemma_flat(init, args);
        assert(!(body[body.len() - 1] is Group) && !(body[body.len() - 1] is Parameter));
        assert(last == body[body.len() - 1]);
        assert(init.push(last) == body);
        assert(init + seq![last] == body);
        assert(resolve_spec(init, args) == Ok::<Code, FailureView>(init));
        assert(resolve_spec(body, args) == Ok::<Code, FailureView>(init.push(last)));
        assert(flatten_once(body) == flatten_once(init) + seq![last]);
        assert forall|index: int| !referenced(body, args.len() as int, index) by {
            if referenced(body, args.len() as int, index) {
                let i = choose|i: int|
                    0 <= i < body.len() && (#[trigger] body[i] matches TokenView::Parameter(range)
                        && captures(range, args.len() as int, index));
                assert(!(body[i] is Parameter));
            }
        }
    }
}

/// A call of a container without cases of its own, with nothing before or
/// behind it, evaluates to what its default body evaluates to, where the
/// body holds neither groups nor parameters. The call costs one round.
pub proof fn law_container_evaluates_to_body(
    m: Machine,
    name: Seq<char>,
    section: SectionView,
    fuel: nat,
)
    requires
        section.cases is None || section.cases == Some(Seq::<CaseView>::empty()),
        m.containers.contains_key(name),
        m.containers[name] == stored_cases(section),
        is_flat(section.default_case),
    ensures
        eval_spec(m, seq![TokenView::Call(FuncView::Container(name))], fuel + 1) == eval_spec(
            m,
            section.default_case,
            fuel,
        ),
{
    let body = section.default_case;
    let call = TokenView::Call(FuncView::Container(name));
    let code = seq![call];
    // Neither sequence holds a group: evaluation is reduction.
    let parts = normalize_all(m, code, fuel + 1);
    assert(parts[0] == Ok::<TokenView, Failures>(call));
    assert(all_ok(parts));
    assert(collect_values(parts) == code);
    let body_parts = normalize_all(m, body, fuel);
    assert forall|i: int| 0 <= i < body.len() implies #[trigger] body_parts[i] == Ok::<
        TokenView,
        Failures,
    >(body[i]) by {
        assert(!(body[i] is Group));
    }
    assert(all_ok(body_parts));
    assert(collect_values(body_parts) == body);
    // The one round dissolves the call.
    assert(is_first_call(code, 0));
    lemma_first_call(code, 0);
    assert(!has_pair(code)) by {
        assert forall|open: int, close: int| !is_first_pair(code, open, close) by {}
    }
    law_container_totality(m, name, section, code, 0, 0, fuel);
    let args = code.subrange(0, 0);
    lemma_flat(body, args);
    assert(retained(args, body) == Seq::<TokenView>::empty());
    assert(code.subrange(0, 0) + Seq::<TokenView>::empty() + body + code.subrange(1, 1) == body);
    assert(step_spec(m, code, fuel) == Ok::<Code, Failures>(body));
}

// ---------------------------------------------------------------------------
// Cleanup

/// Cleanup is precise: where the visited results capture the argument
/// nearest the call and no other, expansion takes exactly that argument out.
/// The arguments before it stay where they are.
pub proof fn law_cleanup_precision(body: Code, visited: Code, code: Code, start: int, end: int)
    requires
        0 <= start < end < code.len(),
        resolve_spec(body, code.subrange(start, end)) is Ok,
        first_misfit(flatten_once(visited), end - start) is None,
        forall|index: int|
            #[trigger] referenced(flatten_once(visited), end - start, index) <==> index == 0,
    ensures
        expand_spec(body, visited, code, start, end) == Ok::<Code, Failures>(
            code.subrange(0, end - 1) + resolve_spec(body, code.subrange(start, end))->Ok_0
                + code.subrange(end + 1, code.len() as int),
        ),
{
    let args = code.subrange(start, end);
    let flat = flatten_once(visited);
    let keep = |i: int| !referenced(flat, args.len() as int, args.len() - 1 - i);
    assert forall|i: int| 0 <= i < args.drop_last().len() implies #[trigger] keep(i) by {
        assert(!referenced(flat, end - start, args.len() - 1 - i));
    }
    lemma_keep_where_all(args.drop_last(), keep);
    assert(!keep(args.len() - 1)) by {
        assert(referenced(flat, end - start, 0));
    }
    assert(retained(args, flat) == args.drop_last());
    assert(code.subrange(0, start) + args.drop_last() == code.subrange(0, end - 1));
}

/// Arguments that no visited result captures stay: where nothing is
/// captured, expansion only puts the body in the place of the call.
pub proof fn law_uncaptured_arguments_stay(
    body: Code,
    visited: Code,
    code: Code,
    start: int,
    end: int,
)
    requires
        0 <= start <= end < code.len(),
        resolve_spec(body, code.subrange(start, end)) is Ok,
        first_misfit(flatten_once(visited), end - start) is None,
        forall|index: int| !#[trigger] referenced(flatten_once(visited), end - start, index),
    ensures
        expand_spec(body, visited, code, start, end) == Ok::<Code, Failures>(
            spliced(code, end, end + 1, resolve_spec(body, code.subrange(start, end))->Ok_0),
        ),
{
    let args = code.subrange(start, end);
    let flat = flatten_once(visited);
    let keep = |i: int| !referenced(flat, args.len() as int, args.len() - 1 - i);
    assert forall|i: int| 0 <= i < args.len() implies #[trigger] keep(i) by {
        assert(!referenced(flat, end - start, args.len() - 1 - i));
    }
    lemma_keep_where_all(args, keep);
    assert(code.subrange(0, start) + args == code.subrange(0, end));
}

// ---------------------------------------------------------------------------
// Unknown names and the independence of sections

/// A call of a function that the table does not hold fails the reduction
/// with that function's name.
pub proof fn law_unknown_function(m: Machine, code: Code, at: int, name: Seq<char>, fuel: nat)
    requires
        is_first_call(code, at),
        !has_pair(code),
        code[at] == TokenView::Call(FuncView::Function(name)),
        (m.functions)(name, code.subrange(0, at)) is None,
    ensures
        reduce_spec(m, code, fuel + 1) == Err::<Code, Failures>(
            seq![FailureView::UnknownFunction(name)],
        ),
{
    lemma_first_call(code, at);
    assert(step_spec(m, code, fuel) == Err::<Code, Failures>(
        seq![FailureView::UnknownFunction(name)],
    ));
}

/// A call of a container that is not registered fails the reduction with
/// that container's name.
pub proof fn law_unknown_container(m: Machine, code: Code, at: int, name: Seq<char>, fuel: nat)
    requires
        is_first_call(code, at),
        !has_pair(code),
        code[at] == TokenView::Call(FuncView::Container(name)),
        !m.containers.contains_key(name),
    ensures
        reduce_spec(m, code, fuel + 1) == Err::<Code, Failures>(
            seq![FailureView::UnknownContainer(name)],
        ),
{
    lemma_first_call(code, at);
    assert(step_spec(m, code, fuel) == Err::<Code, Failures>(
        seq![FailureView::UnknownContainer(name)],
    ));
}

/// What is registered goes by the definitions alone.
proof fn lemma_registered_agree(
    containers: Map<Seq<char>, Seq<CaseView>>,
    sections: Seq<SectionView>,
    others: Seq<SectionView>,
    at: int,
    n: int,
)
    requires
        sections.len() == others.len(),
        0 <= at < sections.len(),
        0 <= n <= sections.len(),
        sections[at].container is None,
        others[at].container is None,
        forall|i: int| 0 <= i < sections.len() && i != at ==> sections[i] == others[i],
    ensures
        registered(containers, sections.take(n)) == registered(containers, others.take(n)),
    decreases n,
{
    if n > 0 {
        lemma_registered_agree(containers, sections, others, at, n - 1);
        assert(sections.take(n).drop_last() == sections.take(n - 1));
        assert(others.take(n).drop_last() == others.take(n - 1));
        assert(sections.take(n).last() == sections[n - 1]);
        assert(others.take(n).last() == others[n - 1]);
    }
}

/// Plain expressions are independent of each other: whatever stands in the
/// place of one of them, a failing call of an unknown name too, the
/// outcome of every other section and what gets registered stay the same.
pub proof fn law_sections_independent(
    m: Machine,
    sections: Seq<SectionView>,
    others: Seq<SectionView>,
    at: int,
    fuel: nat,
)
    requires
        sections.len() == others.len(),
        0 <= at < sections.len(),
        sections[at].container is None,
        others[at].container is None,
        forall|i: int| 0 <= i < sections.len() && i != at ==> sections[i] == others[i],
    ensures
        registered(m.containers, sections) == registered(m.containers, others),
        forall|j: int|
            0 <= j < sections.len() && j != at ==> #[trigger] section_outcome(
                m,
                sections,
                j,
                fuel,
            ) == section_outcome(m, others, j, fuel),
{
    lemma_registered_agree(m.containers, sections, others, at, sections.len() as int);
    assert(sections.take(sections.len() as int) == sections);
    assert(others.take(others.len() as int) == others);
    assert forall|j: int| 0 <= j < sections.len() && j != at implies #[trigger] section_outcome(
        m,
        sections,
        j,
        fuel,
    ) == section_outcome(m, others, j, fuel) by {
        lemma_registered_agree(m.containers, sections, others, at, j);
    }
}

// ---------------------------------------------------------------------------
// The budget

/// Whether an outcome does not report that the budget ran out.
pub open spec fn settled<T>(outcome: Result<T, Failures>) -> bool {
    match outcome {
        Ok(_) => true,
        Err(failures) => !failures.contains(FailureView::BudgetExhausted),
    }
}

/// The collected failures hold the failures of each part.
proof fn lemma_collected<T>(parts: Seq<Result<T, Failures>>, at: int, failure: FailureView)
    requires
        0 <= at < parts.len(),
        parts[at] matches Err(failures) && failures.contains(failure),
    ensures
        collect_failures(parts).contains(failure),
    decreases parts.len(),
{
    let rest = collect_failures(parts.drop_last());
    if at < parts.len() - 1 {
        lemma_collected(parts.drop_last(), at, failure);
        let k = choose|k: int| 0 <= k < rest.len() && rest[k] == failure;
        assert(collect_failures(parts)[k] == failure);
    } else {
        let failures = parts[at]->Err_0;
        let k = choose|k: int| 0 <= k < failures.len() && failures[k] == failure;
        assert(collect_failures(parts)[rest.len() + k] == failure);
    }
}

/// The budget only cuts evaluation off: an evaluation that comes to an end
/// within a budget, with a result or with failures other than the exhausted
/// budget, comes to the same end within every larger budget.
pub proof fn law_budget_only_cuts_off(m: Machine, tokens: Code, fuel: nat, more: nat)
    requires
        fuel <= more,
        settled(eval_spec(m, tokens, fuel)),
    ensures
        eval_spec(m, tokens, more) == eval_spec(m, tokens, fuel),
    decreases fuel, 1int, tokens, 1int,
{
    let parts = normalize_all(m, tokens, fuel);
    let later = normalize_all(m, tokens, more);
    assert forall|i: int| 0 <= i < tokens.len() implies #[trigger] later[i] == parts[i] by {
        if parts[i] is Err && !settled(parts[i]) {
            lemma_collected(parts, i, FailureView::BudgetExhausted);
        }
        lemma_normalize_budget(m, tokens[i], fuel, more);
    }
    assert(later == parts);
    if all_ok(parts) {
        lemma_reduce_budget(m, collect_values(parts), fuel, more);
    }
}

/// The same of the evaluation of a group in its place.
proof fn lemma_normalize_budget(m: Machine, token: TokenView, fuel: nat, more: nat)
    requires
        fuel <= more,
        settled(normalize_spec(m, token, fuel)),
    ensures
        normalize_spec(m, token, more) == normalize_spec(m, token, fuel),
    decreases fuel, 1int, token, 0int,
{
    match token {
        TokenView::Group(content) => {
            law_budget_only_cuts_off(m, content, fuel, more);
        },
        _ => {},
    }
}

/// The same of the reduction loop.
proof fn lemma_reduce_budget(m: Machine, code: Code, fuel: nat, more: nat)
    requires
        fuel <= more,
        settled(reduce_spec(m, code, fuel)),
    ensures
        reduce_spec(m, code, more) == reduce_spec(m, code, fuel),
    decreases fuel, 0int, code, 0int,
{
    if has_call(code) {
        assert(fuel > 0) by {
            if fuel == 0 {
                assert(seq![FailureView::BudgetExhausted][0] == FailureView::BudgetExhausted);
            }
        }
        lemma_step_budget(m, code, (fuel - 1) as nat, (more - 1) as nat);
        match step_spec(m, code, (fuel - 1) as nat) {
            Ok(next) => {
                lemma_reduce_budget(m, next, (fuel - 1) as nat, (more - 1) as nat);
            },
            Err(_) => {},
        }
    }
}

/// The same of one round of the reduction loop.
proof fn lemma_step_budget(m: Machine, code: Code, fuel: nat, more: nat)
    requires
        fuel <= more,
        settled(step_spec(m, code, fuel)),
    ensures
        step_spec(m, code, more) == step_spec(m, code, fuel),
    decreases fuel, 4int, code, 0int,
{
    if has_pair(code) {
        let (open, close) = first_pair(code);
        law_budget_only_cuts_off(m, code.subrange(open + 1, close), fuel, more);
    } else {
        let at = first_call(code);
        lemma_dissolve_budget(m, code, code[at]->Call_0, 0, at, fuel, more);
    }
}

/// The same of the choice among the cases of a container.
proof fn lemma_select_budget(
    m: Machine,
    cases: Seq<CaseView>,
    args: Code,
    fuel: nat,
    more: nat,
    from: int,
)
    requires
        fuel <= more,
        settled(select_spec(m, cases, args, fuel, from)),
    ensures
        select_spec(m, cases, args, more, from) == select_spec(m, cases, args, fuel, from),
    decreases fuel, 2int, cases, cases.len() - from,
{
    if 0 <= from < cases.len() {
        match resolve_spec(cases[from].0, args) {
            Ok(condition) => {
                law_budget_only_cuts_off(m, condition, fuel, more);
                match eval_spec(m, condition, fuel) {
                    Ok(reduced) => {
                        if !truthy(reduced) {
                            lemma_select_budget(m, cases, args, fuel, more, from + 1);
                        }
                    },
                    Err(_) => {},
                }
            },
            Err(_) => {},
        }
    }
}

/// The same of the dissolving of a call.
proof fn lemma_dissolve_budget(
    m: Machine,
    code: Code,
    func: FuncView,
    start: int,
    end: int,
    fuel: nat,
    more: nat,
)
    requires
        fuel <= more,
        settled(dissolve_spec(m, code, func, start, end, fuel)),
    ensures
        dissolve_spec(m, code, func, start, end, more) == dissolve_spec(
            m,
            code,
            func,
            start,
            end,
            fuel,
        ),
    decreases fuel, 3int, code, 0int,
{
    match func {
        FuncView::Container(name) => {
            if m.containers.contains_key(name) {
                lemma_select_budget(m, m.containers[name], code.subrange(start, end), fuel, more, 0);
            }
        },
        _ => {},
    }
}

} // verus!
