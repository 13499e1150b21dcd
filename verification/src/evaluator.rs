//! The evaluator: group normalization, the reduction loop and the dissolving
//! of calls.

use vstd::prelude::*;
use crate::cleanup::expand_call;
use crate::failure::{Failure, FailureView, Rejection};
use crate::functions::{agrees, Oracle, WFunctions};
use crate::models::{
    clone_tokens, is_truthy, lemma_group_view, CaseView, SectionView, Token, TokenView, WCase,
    WCode, WFuncVariant, WTokens, TRUE_BITS,
};
use crate::resolver::resolve;
use crate::semantics::{
    all_ok, chosen_result, collect_failures, collect_values, dissolve_spec, eval_spec, has_call,
    is_first_call, normalize_all, normalize_spec, reduce_spec, registered, results_of,
    section_outcome, section_outcomes, sections_spec, select_spec, step_spec, stored_cases,
    visited_results, Code, Failures, Machine,
};
use crate::state::State;
use crate::utils::{
    clone_range, first_function, lemma_first_call, lemma_first_pair, special_pairs, splice,
};

verus! {

/// The view of the outcome of an evaluation.
pub open spec fn outcome_view(outcome: Result<WTokens, Vec<Failure>>) -> Result<Code, Failures> {
    match outcome {
        Ok(tokens) => Ok(tokens.deep_view()),
        Err(failures) => Err(failures.deep_view()),
    }
}

/// The view of the outcome of a step that edits a sequence in place: the
/// sequence as it is afterwards, or the failures.
pub open spec fn edit_view(outcome: Result<(), Vec<Failure>>, code: WTokens) -> Result<
    Code,
    Failures,
> {
    match outcome {
        Ok(()) => Ok(code.deep_view()),
        Err(failures) => Err(failures.deep_view()),
    }
}

/// A list that holds one failure.
fn single(failure: Failure) -> (failures: Vec<Failure>)
    ensures
        failures.deep_view() == seq![failure.deep_view()],
{
    let mut failures: Vec<Failure> = Vec::new();
    failures.push(failure);
    assert(failures.deep_view() =~= seq![failure.deep_view()]);
    failures
}

/// The position of a chosen case, as the semantics counts it.
pub open spec fn chosen_view(chosen: Option<usize>) -> Option<int> {
    match chosen {
        Some(at) => Some(at as int),
        None => None,
    }
}

/// The view of the outcome of a choice among cases: the position of the
/// chosen case, or the failures.
pub open spec fn choice_view(outcome: Result<(Option<usize>, WTokens), Vec<Failure>>) -> Result<
    Option<int>,
    Failures,
> {
    match outcome {
        Ok((chosen, _)) => Ok(chosen_view(chosen)),
        Err(failures) => Err(failures.deep_view()),
    }
}

/// How far the normalization of a sequence has come: the first `n` of its
/// tokens are done, with these failures and, where none failed, these tokens.
spec fn normalized_upto(
    parts: Seq<Result<TokenView, Failures>>,
    n: int,
    failed: bool,
    errors: Failures,
    done: Code,
) -> bool {
    &&& errors == collect_failures(parts.take(n))
    &&& failed == !all_ok(parts.take(n))
    &&& !failed ==> done == collect_values(parts.take(n))
}

/// How far the processing of sections has come: these failures and, where
/// none failed, these results.
spec fn processed(
    outcomes: Seq<Result<Code, Failures>>,
    failed: bool,
    errors: Failures,
    results: Seq<Code>,
) -> bool {
    &&& errors == collect_failures(outcomes)
    &&& failed == !all_ok(outcomes)
    &&& !failed ==> results == collect_values(outcomes)
}

/// What one more outcome adds to a sequence of outcomes.
proof fn lemma_parts_push<T>(parts: Seq<Result<T, Failures>>, next: Result<T, Failures>)
    ensures
        collect_failures(parts.push(next)) == collect_failures(parts) + match next {
            Ok(_) => Seq::empty(),
            Err(failures) => failures,
        },
        all_ok(parts.push(next)) == (all_ok(parts) && next is Ok),
        collect_values(parts.push(next)) == collect_values(parts).push(next->Ok_0),
{
    let longer = parts.push(next);
    assert(longer.take(parts.len() as int) == parts);
    assert(longer.take(parts.len() as int + 1) == longer);
    lemma_parts_step(longer, parts.len() as int);
}

/// What one more outcome adds to the outcomes before it.
proof fn lemma_parts_step<T>(parts: Seq<Result<T, Failures>>, n: int)
    requires
        0 <= n < parts.len(),
    ensures
        collect_failures(parts.take(n + 1)) == collect_failures(parts.take(n)) + match parts[n] {
            Ok(_) => Seq::empty(),
            Err(failures) => failures,
        },
        all_ok(parts.take(n + 1)) == (all_ok(parts.take(n)) && parts[n] is Ok),
        collect_values(parts.take(n + 1)) == collect_values(parts.take(n)).push(parts[n]->Ok_0),
{
    let longer = parts.take(n + 1);
    let shorter = parts.take(n);
    assert(longer.drop_last() == shorter);
    assert(longer.last() == parts[n]);
    assert(collect_values(longer) =~= collect_values(shorter).push(parts[n]->Ok_0));
    if all_ok(longer) {
        assert forall|i: int| 0 <= i < shorter.len() implies (#[trigger] shorter[i]) is Ok by {
            assert(longer[i] is Ok);
        }
        assert(longer[n] is Ok);
    }
    if all_ok(shorter) && parts[n] is Ok {
        assert forall|i: int| 0 <= i < longer.len() implies (#[trigger] longer[i]) is Ok by {
            if i < n {
                assert(shorter[i] is Ok);
            }
        }
    }
}

impl<B: WFunctions> State<B> {
    /// Dissolves the call `func` that stands at `argument_range.end` in
    /// `code`, within a budget of `fuel` rounds for each condition it has to
    /// evaluate. On a failure `code` is left as it was.
    pub fn dissolve_within(
        &self,
        code: &mut WTokens,
        func: WFuncVariant,
        argument_range: &std::ops::Range<usize>,
        arr: WTokens,
        fuel: usize,
    ) -> (outcome: Result<(), Vec<Failure>>)
        requires
            argument_range.start <= argument_range.end < old(code).len(),
            arr.deep_view() == old(code).deep_view().subrange(
                argument_range.start as int,
                argument_range.end as int,
            ),
        ensures
            forall|model: Oracle| #[trigger]
                agrees(self.functions(), model) ==> edit_view(outcome, *final(code))
                    == dissolve_spec(
                    self.machine(model),
                    old(code).deep_view(),
                    func.deep_view(),
                    argument_range.start as int,
                    argument_range.end as int,
                    fuel as nat,
                ),
            outcome is Err ==> *final(code) == *old(code),
        decreases fuel, 3int, *old(code), 0int,
    {
        match func {
            WFuncVariant::Function(name) => {
                let answer = self.table().call(name.as_str(), arr);
                match answer {
                    None => Err(single(Failure::UnknownFunction(name))),
                    Some(Err(message)) => Err(single(Failure::BuiltinFailure(name, message))),
                    Some(Ok(replacement)) => {
                        splice(code, argument_range.start, argument_range.end + 1, replacement);
                        Ok(())
                    },
                }
            },
            WFuncVariant::Container(name) => {
                let cases = match self.get(&name) {
                    Some(cases) => cases,
                    None => {
                        return Err(single(Failure::UnknownContainer(name)));
                    },
                };
                let (chosen, visited) = match self.select_within(cases, &arr, fuel) {
                    Ok(choice) => choice,
                    Err(failures) => {
                        return Err(failures);
                    },
                };
                let body = match chosen {
                    Some(at) => clone_tokens(&cases[at].1),
                    None => Vec::new(),
                };
                assert(body.deep_view() == chosen_result(cases.deep_view(), chosen_view(chosen)));
                match expand_call(code, &body, &visited, argument_range, &arr) {
                    Ok(()) => Ok(()),
                    Err(failure) => Err(single(failure)),
                }
            },
        }
    }

    /// Chooses among the cases of a container, with `arr` as the arguments
    /// of the call: the cases are visited in order, and the first whose
    /// condition, with the arguments put in and evaluated within `fuel`
    /// rounds, holds is chosen. No later condition is evaluated. Returns the
    /// position of the chosen case, `None` where no case holds, and the
    /// results of the visited cases, one behind the other.
    pub fn select_within(&self, cases: &Vec<WCase>, arr: &WTokens, fuel: usize) -> (outcome: Result<
        (Option<usize>, WTokens),
        Vec<Failure>,
    >)
        ensures
            forall|model: Oracle| #[trigger]
                agrees(self.functions(), model) ==> choice_view(outcome) == select_spec(
                    self.machine(model),
                    cases.deep_view(),
                    arr.deep_view(),
                    fuel as nat,
                    0,
                ),
            outcome matches Ok((chosen, visited)) ==> {
                &&& chosen matches Some(at) ==> at < cases.len()
                &&& visited.deep_view() == visited_results(cases.deep_view(), chosen_view(chosen))
            },
        decreases fuel, 2int, cases, 0int,
    {
        let ghost all = cases.deep_view();
        let ghost args = arr.deep_view();
        let mut visited: WTokens = Vec::new();
        let mut i: usize = 0;
        assert(all.take(0) == Seq::<CaseView>::empty());
        assert(visited.deep_view() == Seq::<TokenView>::empty());
        while i < cases.len()
            invariant
                i <= cases.len(),
                all == cases.deep_view(),
                args == arr.deep_view(),
                visited.deep_view() == results_of(all.take(i as int)),
                forall|model: Oracle| #[trigger]
                    agrees(self.functions(), model) ==> select_spec(
                        self.machine(model),
                        all,
                        args,
                        fuel as nat,
                        0,
                    ) == select_spec(self.machine(model), all, args, fuel as nat, i as int),
            decreases cases.len() - i,
        {
            let case = &cases[i];
            let ghost seen = visited.deep_view();
            let mut result = clone_tokens(&case.1);
            visited.append(&mut result);
            proof {
                assert(visited.deep_view() == seen + all[i as int].1);
                assert(all.take(i + 1).drop_last() == all.take(i as int));
            }
            let condition = match resolve(&case.0, arr) {
                Ok(condition) => condition,
                Err(failure) => {
                    return Err(single(failure));
                },
            };
            let reduced = match self.eval_within(&condition, fuel) {
                Ok(reduced) => reduced,
                Err(failures) => {
                    return Err(failures);
                },
            };
            if is_truthy(&reduced) {
                return Ok((Some(i), visited));
            }
            i += 1;
        }
        assert(all.take(i as int) == all);
        Ok((None, visited))
    }

    /// One round of reduction on `code`, whose leftmost call is `func` with
    /// the span `span` of arguments: what stands in the first matched pair of
    /// parentheses is evaluated and takes the place of the pair, or else,
    /// where no pair is matched, the call is dissolved.
    fn step_within(
        &self,
        code: &mut WTokens,
        span: std::ops::Range<usize>,
        func: WFuncVariant,
        fuel: usize,
    ) -> (outcome: Result<(), Vec<Failure>>)
        requires
            span.start == 0,
            is_first_call(old(code).deep_view(), span.end as int),
            old(code).deep_view()[span.end as int] == TokenView::Call(func.deep_view()),
        ensures
            forall|model: Oracle| #[trigger]
                agrees(self.functions(), model) ==> edit_view(outcome, *final(code)) == step_spec(
                    self.machine(model),
                    old(code).deep_view(),
                    fuel as nat,
                ),
        decreases fuel, 4int, *old(code), 0int,
    {
        let ghost round = code.deep_view();
        proof {
            lemma_first_call(round, span.end as int);
        }
        match special_pairs(code) {
            Some((open, close)) => {
                proof {
                    lemma_first_pair(round, open as int, close as int);
                    assert(round.len() == code.len());
                }
                let inner = clone_range(code, open + 1, close);
                match self.eval_within(&inner, fuel) {
                    Ok(reduced) => {
                        splice(code, open, close + 1, reduced);
                        Ok(())
                    },
                    Err(failures) => Err(failures),
                }
            },
            None => {
                let arr = clone_range(code, span.start, span.end);
                self.dissolve_within(code, func, &span, arr, fuel)
            },
        }
    }

    /// Reduces `code` within a budget of `fuel` rounds: while a call is left
    /// in it, what stands in the first matched pair of parentheses is
    /// evaluated and takes the place of the pair, or else, where no pair is
    /// matched, the leftmost call is dissolved with all that stands before it
    /// as its arguments. What a round evaluates gets the rounds that are left.
    pub fn reduce_within(&self, code: WTokens, fuel: usize) -> (outcome: Result<
        WTokens,
        Vec<Failure>,
    >)
        ensures
            forall|model: Oracle| #[trigger]
                agrees(self.functions(), model) ==> outcome_view(outcome) == reduce_spec(
                    self.machine(model),
                    code.deep_view(),
                    fuel as nat,
                ),
            outcome matches Ok(reduced) ==> !has_call(reduced.deep_view()),
        decreases fuel, 0int, code, 0int,
    {
        let ghost given = code.deep_view();
        let mut current = code;
        let mut left: usize = fuel;
        loop
            invariant
                left <= fuel,
                given == code.deep_view(),
                forall|model: Oracle| #[trigger]
                    agrees(self.functions(), model) ==> reduce_spec(
                        self.machine(model),
                        current.deep_view(),
                        left as nat,
                    ) == reduce_spec(self.machine(model), given, fuel as nat),
            decreases left,
        {
            let ghost round = current.deep_view();
            let (span, func) = match first_function(&current) {
                Some(site) => site,
                None => {
                    return Ok(current);
                },
            };
            proof {
                lemma_first_call(round, span.end as int);
            }
            if left == 0 {
                return Err(single(Failure::BudgetExhausted));
            }
            let ghost rounds = left as nat;
            left -= 1;
            let outcome = self.step_within(&mut current, span, func, left);
            proof {
                assert forall|model: Oracle| #[trigger]
                    agrees(self.functions(), model) implies reduce_spec(
                    self.machine(model),
                    given,
                    fuel as nat,
                ) == match outcome {
                    Ok(()) => reduce_spec(self.machine(model), current.deep_view(), left as nat),
                    Err(failures) => Err(failures.deep_view()),
                } by {
                    let m = self.machine(model);
                    assert(step_spec(m, round, left as nat) == edit_view(outcome, current));
                    assert(reduce_spec(m, round, rounds) == match step_spec(m, round, left as nat) {
                        Ok(next) => reduce_spec(m, next, left as nat),
                        Err(failures) => Err(failures),
                    });
                }
            }
            match outcome {
                Ok(()) => {},
                Err(failures) => {
                    return Err(failures);
                },
            }
        }
    }

    /// Evaluates `data` within a budget of `fuel` reduction rounds: each
    /// group is replaced by the group of what its contents evaluate to, then
    /// the sequence is reduced. The failures of all groups are collected.
    pub fn eval_within(&self, data: &WTokens, fuel: usize) -> (outcome: Result<
        WTokens,
        Vec<Failure>,
    >)
        ensures
            forall|model: Oracle| #[trigger]
                agrees(self.functions(), model) ==> outcome_view(outcome) == eval_spec(
                    self.machine(model),
                    data.deep_view(),
                    fuel as nat,
                ),
            outcome matches Ok(reduced) ==> !has_call(reduced.deep_view()),
        decreases fuel, 1int, data, 1int,
    {
        let ghost view = data.deep_view();
        let mut group_eval: WTokens = Vec::new();
        let mut errors: Vec<Failure> = Vec::new();
        let mut failed = false;
        let mut i: usize = 0;
        proof {
            assert(group_eval.deep_view() == Seq::<TokenView>::empty());
            assert(errors.deep_view() == Seq::<FailureView>::empty());
            assert forall|model: Oracle| #[trigger]
                agrees(self.functions(), model) implies normalized_upto(
                normalize_all(self.machine(model), view, fuel as nat),
                0,
                failed,
                errors.deep_view(),
                group_eval.deep_view(),
            ) by {
                let parts = normalize_all(self.machine(model), view, fuel as nat);
                assert(parts.take(0) == Seq::<Result<TokenView, Failures>>::empty());
                assert(collect_values(parts.take(0)) == Seq::<TokenView>::empty());
            }
        }
        while i < data.len()
            invariant
                i <= data.len(),
                view == data.deep_view(),
                forall|model: Oracle| #[trigger]
                    agrees(self.functions(), model) ==> normalized_upto(
                        normalize_all(self.machine(model), view, fuel as nat),
                        i as int,
                        failed,
                        errors.deep_view(),
                        group_eval.deep_view(),
                    ),
            decreases data.len() - i,
        {
            let ghost old_errors = errors.deep_view();
            let ghost old_done = group_eval.deep_view();
            match &data[i] {
                Token::Group(content) => {
                    assert(decreases_to!(data => data[i as int]));
                    assert(decreases_to!(data[i as int] => data[i as int]->Group_0));
                    proof {
                        lemma_group_view(*content);
                    }
                    match self.eval_within(content, fuel) {
                        Ok(reduced) => {
                            proof {
                                lemma_group_view(reduced);
                            }
                            group_eval.push(Token::Group(reduced));
                            proof {
                                assert(group_eval.deep_view() == old_done.push(
                                    TokenView::Group(reduced.deep_view()),
                                ));
                                assert forall|model: Oracle| #[trigger]
                                    agrees(self.functions(), model) implies normalized_upto(
                                    normalize_all(self.machine(model), view, fuel as nat),
                                    i + 1,
                                    failed,
                                    errors.deep_view(),
                                    group_eval.deep_view(),
                                ) by {
                                    let m = self.machine(model);
                                    let parts = normalize_all(m, view, fuel as nat);
                                    lemma_parts_step(parts, i as int);
                                    assert(parts[i as int] == normalize_spec(
                                        m,
                                        view[i as int],
                                        fuel as nat,
                                    ));
                                    assert(old_errors + Seq::<
                                        FailureView,
                                    >::empty() == old_errors);
                                }
                            }
                        },
                        Err(failures) => {
                            let mut failures = failures;
                            let ghost added = failures.deep_view();
                            errors.append(&mut failures);
                            failed = true;
                            proof {
                                assert(errors.deep_view() == old_errors + added);
                                assert forall|model: Oracle| #[trigger]
                                    agrees(self.functions(), model) implies normalized_upto(
                                    normalize_all(self.machine(model), view, fuel as nat),
                                    i + 1,
                                    failed,
                                    errors.deep_view(),
                                    group_eval.deep_view(),
                                ) by {
                                    let m = self.machine(model);
                                    let parts = normalize_all(m, view, fuel as nat);
                                    lemma_parts_step(parts, i as int);
                                    assert(parts[i as int] == normalize_spec(
                                        m,
                                        view[i as int],
                                        fuel as nat,
                                    ));
                                }
                            }
                        },
                    }
                },
                token => {
                    group_eval.push(token.clone());
                    proof {
                        assert(group_eval.deep_view() == old_done.push(view[i as int]));
                        assert forall|model: Oracle| #[trigger]
                            agrees(self.functions(), model) implies normalized_upto(
                            normalize_all(self.machine(model), view, fuel as nat),
                            i + 1,
                            failed,
                            errors.deep_view(),
                            group_eval.deep_view(),
                        ) by {
                            let m = self.machine(model);
                            let parts = normalize_all(m, view, fuel as nat);
                            lemma_parts_step(parts, i as int);
                            assert(parts[i as int] == normalize_spec(m, view[i as int], fuel as nat));
                            assert(old_errors + Seq::<FailureView>::empty()
                                == old_errors);
                        }
                    }
                },
            }
            i += 1;
        }
        proof {
            assert forall|model: Oracle| #[trigger]
                agrees(self.functions(), model) implies normalize_all(
                self.machine(model),
                view,
                fuel as nat,
            ).take(i as int) == normalize_all(self.machine(model), view, fuel as nat) by {}
        }
        if failed {
            return Err(errors);
        }
        self.reduce_within(group_eval, fuel)
    }
}

/// The view of the outcome of processing sections.
pub open spec fn results_view(outcome: Result<Vec<WTokens>, Vec<Failure>>) -> Result<
    Seq<Code>,
    Failures,
> {
    match outcome {
        Ok(results) => Ok(results.deep_view()),
        Err(failures) => Err(failures.deep_view()),
    }
}

/// The view of the outcome of applying a state to a program.
pub open spec fn applied_view<E>(outcome: Result<Vec<WTokens>, Rejection<E>>) -> Result<
    Seq<Code>,
    Failures,
>
    recommends
        !(outcome matches Err(Rejection::Syntax(_))),
{
    match outcome {
        Ok(results) => Ok(results.deep_view()),
        Err(Rejection::Evaluation(failures)) => Err(failures.deep_view()),
        Err(Rejection::Syntax(_)) => Err(Seq::empty()),
    }
}

/// Copies a list of cases.
fn clone_cases(cases: &Vec<WCase>) -> (copy: Vec<WCase>)
    ensures
        copy.deep_view() == cases.deep_view(),
{
    let mut copy: Vec<WCase> = Vec::new();
    let mut i: usize = 0;
    while i < cases.len()
        invariant
            i <= cases.len(),
            copy.len() == i,
            forall|j: int| 0 <= j < i ==> copy[j].deep_view() == cases[j].deep_view(),
        decreases cases.len() - i,
    {
        copy.push((clone_tokens(&cases[i].0), clone_tokens(&cases[i].1)));
        i += 1;
    }
    assert(copy.deep_view() =~= cases.deep_view());
    copy
}

/// The cases that the definition of a container registers.
fn cases_to_store(section: &WCode) -> (cases: Vec<WCase>)
    ensures
        cases.deep_view() == stored_cases(section.deep_view()),
{
    let mut cases: Vec<WCase> = match &section.cases {
        Some(own) => clone_cases(own),
        None => Vec::new(),
    };
    let ghost own = cases.deep_view();
    let mut condition: WTokens = Vec::new();
    condition.push(Token::Value(TRUE_BITS));
    let default_case = clone_tokens(&section.default_case);
    assert(condition.deep_view() =~= seq![TokenView::Value(TRUE_BITS)]);
    cases.push((condition, default_case));
    assert(cases.deep_view() =~= own.push(
        (seq![TokenView::Value(TRUE_BITS)], section.default_case.deep_view()),
    ));
    assert(section.cases is None ==> own =~= Seq::<CaseView>::empty());
    cases
}

/// The evaluator's entry points. Each evaluation runs within the budget that
/// the state holds.
pub trait WEval {
    /// Takes what a front end has made of a source text: where it is the
    /// sections of a program, they are processed as `wsection_eval` says;
    /// where the front end rejected the text, so does this, and the state
    /// stays as it is.
    fn apply<E>(&mut self, parsed: Result<Vec<WCode>, E>) -> Result<Vec<WTokens>, Rejection<E>>;

    /// Processes the sections of a program in order: a definition is
    /// registered, with the case that always holds and gives its default body
    /// behind its own cases; a plain expression is evaluated with what is
    /// registered by then. Returns the results of the plain expressions, in
    /// order; or, where any of them failed, the failures of all of them. A
    /// section that fails does not keep the others from being processed.
    fn wsection_eval(&mut self, data: Vec<WCode>) -> Result<Vec<WTokens>, Vec<Failure>>;

    /// Evaluates a token sequence: its groups are evaluated in place, then
    /// the sequence is reduced until it holds no call.
    fn eval(&self, data: WTokens) -> Result<WTokens, Vec<Failure>>;

    /// Dissolves the call `func` that stands at `argument_range.end` in
    /// `code`, with the tokens `arr` of `argument_range` as its arguments.
    ///
    /// The call of a function and its arguments are replaced by what the
    /// function returns. The call of a container is replaced by the result of
    /// the first case whose condition holds, with the arguments put in, and by
    /// nothing where no case holds; the arguments that the results of the
    /// visited cases capture are taken out of `code`, the others stay. On a
    /// failure `code` is left as it was.
    fn dissolve(
        &self,
        code: &mut WTokens,
        func: WFuncVariant,
        argument_range: &std::ops::Range<usize>,
        arr: WTokens,
    ) -> Result<(), Vec<Failure>>
        requires
            argument_range.start <= argument_range.end < old(code).len(),
            arr.deep_view() == old(code).deep_view().subrange(
                argument_range.start as int,
                argument_range.end as int,
            ),
    ;
}

impl<B: WFunctions> WEval for State<B> {
    fn apply<E>(&mut self, parsed: Result<Vec<WCode>, E>) -> (outcome: Result<
        Vec<WTokens>,
        Rejection<E>,
    >)
        ensures
            final(self).functions() == old(self).functions(),
            final(self).budget() == old(self).budget(),
            match parsed {
                Ok(sections) => {
                    &&& !(outcome matches Err(Rejection::Syntax(_)))
                    &&& final(self).containers() == registered(
                        old(self).containers(),
                        sections.deep_view(),
                    )
                    &&& forall|model: Oracle| #[trigger]
                        agrees(old(self).functions(), model) ==> applied_view(outcome)
                            == sections_spec(
                            old(self).machine(model),
                            sections.deep_view(),
                            old(self).budget(),
                        )
                },
                Err(report) => {
                    &&& outcome == Err::<Vec<WTokens>, Rejection<E>>(Rejection::Syntax(report))
                    &&& final(self).containers() == old(self).containers()
                },
            },
    {
        match parsed {
            Ok(sections) => match self.wsection_eval(sections) {
                Ok(results) => Ok(results),
                Err(failures) => Err(Rejection::Evaluation(failures)),
            },
            Err(report) => Err(Rejection::Syntax(report)),
        }
    }

    fn wsection_eval(&mut self, data: Vec<WCode>) -> (outcome: Result<Vec<WTokens>, Vec<Failure>>)
        ensures
            final(self).containers() == registered(old(self).containers(), data.deep_view()),
            final(self).functions() == old(self).functions(),
            final(self).budget() == old(self).budget(),
            forall|model: Oracle| #[trigger]
                agrees(old(self).functions(), model) ==> results_view(outcome) == sections_spec(
                    old(self).machine(model),
                    data.deep_view(),
                    old(self).budget(),
                ),
            outcome matches Ok(results) ==> forall|k: int|
                0 <= k < results.len() ==> !has_call(#[trigger] results[k].deep_view()),
    {
        let ghost sections = data.deep_view();
        let ghost given = self.containers();
        let mut result: Vec<WTokens> = Vec::new();
        let mut errors: Vec<Failure> = Vec::new();
        let mut failed = false;
        let mut i: usize = 0;
        proof {
            assert(sections.take(0) == Seq::<SectionView>::empty());
            assert(result.deep_view() == Seq::<Code>::empty());
            assert(errors.deep_view() == Seq::<FailureView>::empty());
            assert(collect_values(Seq::<Result<Code, Failures>>::empty()) == Seq::<Code>::empty());
        }
        while i < data.len()
            invariant
                i <= data.len(),
                sections == data.deep_view(),
                given == old(self).containers(),
                self.containers() == registered(given, sections.take(i as int)),
                self.functions() == old(self).functions(),
                self.budget() == old(self).budget(),
                forall|k: int| 0 <= k < result.len() ==> !has_call(#[trigger] result[k].deep_view()),
                forall|model: Oracle| #[trigger]
                    agrees(self.functions(), model) ==> processed(
                        section_outcomes(
                            old(self).machine(model),
                            sections,
                            i as int,
                            self.budget(),
                        ),
                        failed,
                        errors.deep_view(),
                        result.deep_view(),
                    ),
            decreases data.len() - i,
        {
            let section = &data[i];
            let ghost longer = sections.take(i + 1);
            let ghost old_errors = errors.deep_view();
            let ghost old_results = result.deep_view();
            proof {
                assert(longer.drop_last() == sections.take(i as int));
                assert(longer.last() == section.deep_view());
            }
            match &section.container {
                Some(container) => {
                    let cases = cases_to_store(section);
                    self.insert(container.clone(), cases);
                },
                None => {
                    let fuel = self.steps();
                    let ghost here = self.containers();
                    match self.eval_within(&section.default_case, fuel) {
                        Ok(reduced) => {
                            result.push(reduced);
                            proof {
                                assert(result.deep_view() == old_results.push(reduced.deep_view()));
                                assert forall|model: Oracle| #[trigger]
                                    agrees(self.functions(), model) implies processed(
                                    section_outcomes(
                                        old(self).machine(model),
                                        sections,
                                        i + 1,
                                        self.budget(),
                                    ),
                                    failed,
                                    errors.deep_view(),
                                    result.deep_view(),
                                ) by {
                                    let m = old(self).machine(model);
                                    let outcomes = section_outcomes(
                                        m,
                                        sections,
                                        i as int,
                                        self.budget(),
                                    );
                                    let next = section_outcome(
                                        m,
                                        sections,
                                        i as int,
                                        self.budget(),
                                    );
                                    assert(self.machine(model) == Machine {
                                        containers: here,
                                        functions: model,
                                    });
                                    lemma_parts_push(outcomes, next);
                                    assert(old_errors + Seq::<
                                        FailureView,
                                    >::empty() == old_errors);
                                }
                            }
                        },
                        Err(failures) => {
                            let mut failures = failures;
                            let ghost added = failures.deep_view();
                            errors.append(&mut failures);
                            failed = true;
                            proof {
                                assert(errors.deep_view() == old_errors + added);
                                assert forall|model: Oracle| #[trigger]
                                    agrees(self.functions(), model) implies processed(
                                    section_outcomes(
                                        old(self).machine(model),
                                        sections,
                                        i + 1,
                                        self.budget(),
                                    ),
                                    failed,
                                    errors.deep_view(),
                                    result.deep_view(),
                                ) by {
                                    let m = old(self).machine(model);
                                    let outcomes = section_outcomes(
                                        m,
                                        sections,
                                        i as int,
                                        self.budget(),
                                    );
                                    let next = section_outcome(
                                        m,
                                        sections,
                                        i as int,
                                        self.budget(),
                                    );
                                    assert(self.machine(model) == Machine {
                                        containers: here,
                                        functions: model,
                                    });
                                    lemma_parts_push(outcomes, next);
                                }
                            }
                        },
                    }
                },
            }
            i += 1;
        }
        proof {
            assert(sections.take(i as int) == sections);
        }
        if failed {
            Err(errors)
        } else {
            Ok(result)
        }
    }

    fn eval(&self, data: WTokens) -> (outcome: Result<WTokens, Vec<Failure>>)
        ensures
            forall|model: Oracle| #[trigger]
                agrees(self.functions(), model) ==> outcome_view(outcome) == eval_spec(
                    self.machine(model),
                    data.deep_view(),
                    self.budget(),
                ),
            outcome matches Ok(reduced) ==> !has_call(reduced.deep_view()),
    {
        self.eval_within(&data, self.steps())
    }

    fn dissolve(
        &self,
        code: &mut WTokens,
        func: WFuncVariant,
        argument_range: &std::ops::Range<usize>,
        arr: WTokens,
    ) -> (outcome: Result<(), Vec<Failure>>)
        ensures
            forall|model: Oracle| #[trigger]
                agrees(self.functions(), model) ==> edit_view(outcome, *final(code))
                    == dissolve_spec(
                    self.machine(model),
                    old(code).deep_view(),
                    func.deep_view(),
                    argument_range.start as int,
                    argument_range.end as int,
                    self.budget(),
                ),
            outcome is Err ==> *final(code) == *old(code),
    {
        self.dissolve_within(code, func, argument_range, arr, self.steps())
    }
}

} // verus!
