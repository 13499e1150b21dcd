//! What evaluation means: the reduction of a token sequence, stated over the
//! views of tokens, of the registry and of the function table.

use vstd::prelude::*;
use crate::failure::FailureView;
use crate::functions::Oracle;
use crate::models::{truthy, CaseView, FuncView, Range, SectionView, TokenView, TRUE_BITS};

verus! {

/// A token sequence, as mathematics sees it.
pub type Code = Seq<TokenView>;

/// The failures that an evaluation collected, in the order they arose.
pub type Failures = Seq<FailureView>;

/// What an evaluator works with: the registered containers and the model of
/// the function table.
pub struct Machine {
    pub containers: Map<Seq<char>, Seq<CaseView>>,
    pub functions: Oracle,
}

// ---------------------------------------------------------------------------
// Parameter ranges

/// The least reverse index that a range names.
pub open spec fn range_low(range: Range) -> int {
    match range {
        Range::Full(start, _) => start as int,
        Range::From(start) => start as int,
        Range::To(_) => 0,
    }
}

/// The greatest reverse index that a range names, among `len` arguments.
pub open spec fn range_high(range: Range, len: int) -> int {
    match range {
        Range::Full(_, end) => end as int,
        Range::From(_) => len - 1,
        Range::To(end) => end as int,
    }
}

/// Whether a range captures the argument at reverse index `index`.
pub open spec fn captures(range: Range, len: int, index: int) -> bool {
    range_low(range) <= index <= range_high(range, len)
}

/// Whether every reverse index that a range names exists among `len`
/// arguments.
pub open spec fn range_fits(range: Range, len: int) -> bool {
    range_low(range) <= range_high(range, len) ==> range_high(range, len) < len
}

/// The arguments that a fitting range captures, in their order in `args`.
pub open spec fn expand(range: Range, args: Code) -> Code {
    let low = range_low(range);
    let high = range_high(range, args.len() as int);
    if low <= high {
        args.subrange(args.len() - 1 - high, args.len() - low)
    } else {
        Seq::empty()
    }
}

/// Substitution of the parameters of `tokens` by the arguments they capture;
/// the first parameter that does not fit the arguments is a failure.
pub open spec fn resolve_spec(tokens: Code, args: Code) -> Result<Code, FailureView>
    decreases tokens.len(),
{
    if tokens.len() == 0 {
        Ok(Seq::empty())
    } else {
        match resolve_spec(tokens.drop_last(), args) {
            Err(failure) => Err(failure),
            Ok(init) => match tokens.last() {
                TokenView::Parameter(range) => if range_fits(range, args.len() as int) {
                    Ok(init + expand(range, args))
                } else {
                    Err(FailureView::MalformedCapture(range))
                },
                token => Ok(init.push(token)),
            },
        }
    }
}

// ---------------------------------------------------------------------------
// Call sites and parentheses

/// Whether a sequence holds a call at its top level.
pub open spec fn has_call(code: Code) -> bool {
    exists|i: int| 0 <= i < code.len() && code[i] is Call
}

/// Whether `at` is the position of the leftmost call of `code`.
pub open spec fn is_first_call(code: Code, at: int) -> bool {
    &&& 0 <= at < code.len()
    &&& code[at] is Call
    &&& forall|i: int| 0 <= i < at ==> !(code[i] is Call)
}

/// The position of the leftmost call of a sequence that has one.
pub open spec fn first_call(code: Code) -> int {
    choose|at: int| is_first_call(code, at)
}

/// Opening parentheses minus closing ones in `code[from..to]`.
pub open spec fn balance(code: Code, from: int, to: int) -> int
    decreases to - from,
{
    if to <= from {
        0
    } else {
        balance(code, from, to - 1) + match code[to - 1] {
            TokenView::Open => 1int,
            TokenView::Close => -1int,
            _ => 0int,
        }
    }
}

/// Whether the parenthesis at `open` is closed by the one at `close`: `close`
/// is the first position behind `open` up to which the parentheses from
/// `open` on balance.
pub open spec fn is_pair(code: Code, open: int, close: int) -> bool {
    &&& 0 <= open < close < code.len()
    &&& code[open] is Open
    &&& balance(code, open, close + 1) == 0
    &&& forall|i: int| open < i <= close ==> balance(code, open, i) > 0
}

/// Whether `open` and `close` are the first matched pair of `code`: the pair
/// whose opening parenthesis stands leftmost.
pub open spec fn is_first_pair(code: Code, open: int, close: int) -> bool {
    &&& is_pair(code, open, close)
    &&& forall|o: int, c: int| 0 <= o < open ==> !is_pair(code, o, c)
}

/// Whether `code` holds a matched pair of parentheses.
pub open spec fn has_pair(code: Code) -> bool {
    exists|open: int, close: int| is_first_pair(code, open, close)
}

/// The first matched pair of a sequence that holds one.
pub open spec fn first_pair(code: Code) -> (int, int) {
    choose|pair: (int, int)| is_first_pair(code, pair.0, pair.1)
}

/// `code` with `code[from..to]` replaced by `with`.
pub open spec fn spliced(code: Code, from: int, to: int, with: Code) -> Code {
    code.subrange(0, from) + with + code.subrange(to, code.len() as int)
}

// ---------------------------------------------------------------------------
// Cleanup of captured arguments

/// `tokens` with each group replaced by its contents, one level deep.
pub open spec fn flatten_once(tokens: Code) -> Code
    decreases tokens.len(),
{
    if tokens.len() == 0 {
        Seq::empty()
    } else {
        flatten_once(tokens.drop_last()) + match tokens.last() {
            TokenView::Group(content) => content,
            token => seq![token],
        }
    }
}

/// The first parameter of `tokens` whose range does not fit `len` arguments.
pub open spec fn first_misfit(tokens: Code, len: int) -> Option<Range>
    decreases tokens.len(),
{
    if tokens.len() == 0 {
        None
    } else {
        match first_misfit(tokens.drop_last(), len) {
            Some(range) => Some(range),
            None => match tokens.last() {
                TokenView::Parameter(range) => if range_fits(range, len) {
                    None
                } else {
                    Some(range)
                },
                _ => None,
            },
        }
    }
}

/// Whether some parameter of `tokens` captures the argument at reverse index
/// `index`, among `len` arguments.
pub open spec fn referenced(tokens: Code, len: int, index: int) -> bool {
    exists|i: int|
        0 <= i < tokens.len() && (#[trigger] tokens[i] matches TokenView::Parameter(range)
            && captures(range, len, index))
}

/// The elements of `s` at the positions that `keep` holds of, in order.
pub open spec fn keep_where<T>(s: Seq<T>, keep: spec_fn(int) -> bool) -> Seq<T>
    decreases s.len(),
{
    if s.len() == 0 {
        s
    } else {
        let init = keep_where(s.drop_last(), keep);
        if keep(s.len() - 1) {
            init.push(s.last())
        } else {
            init
        }
    }
}

/// `args` without the arguments that a parameter of `tokens` captures.
pub open spec fn retained(args: Code, tokens: Code) -> Code {
    keep_where(args, |i: int| !referenced(tokens, args.len() as int, args.len() - 1 - i))
}

// ---------------------------------------------------------------------------
// Evaluation

/// The failures of a sequence of outcomes, in order.
pub open spec fn collect_failures<T>(parts: Seq<Result<T, Failures>>) -> Failures
    decreases parts.len(),
{
    if parts.len() == 0 {
        Seq::empty()
    } else {
        collect_failures(parts.drop_last()) + match parts.last() {
            Ok(_) => Seq::empty(),
            Err(failures) => failures,
        }
    }
}

/// The values of a sequence of outcomes that hold no failure.
pub open spec fn collect_values<T>(parts: Seq<Result<T, Failures>>) -> Seq<T> {
    Seq::new(parts.len(), |i: int| parts[i]->Ok_0)
}

/// The results of a sequence of cases, one behind the other.
pub open spec fn results_of(cases: Seq<CaseView>) -> Code
    decreases cases.len(),
{
    if cases.len() == 0 {
        Seq::empty()
    } else {
        results_of(cases.drop_last()) + cases.last().1
    }
}

/// The results of the cases that a dissolve visited: those up to the chosen
/// one, or all of them where none was chosen.
pub open spec fn visited_results(cases: Seq<CaseView>, chosen: Option<int>) -> Code {
    match chosen {
        Some(at) => results_of(cases.take(at + 1)),
        None => results_of(cases),
    }
}

/// The result of the chosen case; nothing where none was chosen.
pub open spec fn chosen_result(cases: Seq<CaseView>, chosen: Option<int>) -> Code {
    match chosen {
        Some(at) => cases[at].1,
        None => Seq::empty(),
    }
}

/// Whether none of a sequence of outcomes is a failure.
pub open spec fn all_ok<T>(parts: Seq<Result<T, Failures>>) -> bool {
    forall|i: int| 0 <= i < parts.len() ==> (#[trigger] parts[i]) is Ok
}

/// The evaluation of a token sequence within a budget of `fuel` steps: its
/// groups are evaluated in place, then the sequence is reduced. Where groups
/// fail, the failures of all of them are the outcome.
pub open spec fn eval_spec(m: Machine, tokens: Code, fuel: nat) -> Result<Code, Failures>
    decreases fuel, 1int, tokens, 1int,
{
    let parts = normalize_all(m, tokens, fuel);
    if all_ok(parts) {
        reduce_spec(m, collect_values(parts), fuel)
    } else {
        Err(collect_failures(parts))
    }
}

/// The tokens of a sequence, each group with its contents evaluated.
pub open spec fn normalize_all(m: Machine, tokens: Code, fuel: nat) -> Seq<
    Result<TokenView, Failures>,
>
    decreases fuel, 1int, tokens, 0int,
{
    Seq::new(
        tokens.len(),
        |i: int|
            if 0 <= i < tokens.len() {
                normalize_spec(m, tokens[i], fuel)
            } else {
                Ok(TokenView::Open)
            },
    )
}

/// A group with its contents evaluated; any other token as it is.
pub open spec fn normalize_spec(m: Machine, token: TokenView, fuel: nat) -> Result<
    TokenView,
    Failures,
>
    decreases fuel, 1int, token, 0int,
{
    match token {
        TokenView::Group(content) => match eval_spec(m, content, fuel) {
            Ok(reduced) => Ok(TokenView::Group(reduced)),
            Err(failures) => Err(failures),
        },
        _ => Ok(token),
    }
}

/// The reduction loop: while a call is left, what stands in the first matched
/// pair of parentheses is evaluated and takes the place of the pair, or else,
/// where no pair is matched, the leftmost call is dissolved with all that
/// stands before it as its arguments. Each round takes one unit of fuel.
pub open spec fn reduce_spec(m: Machine, code: Code, fuel: nat) -> Result<Code, Failures>
    decreases fuel, 0int, code, 0int,
{
    if !has_call(code) {
        Ok(code)
    } else if fuel == 0 {
        Err(seq![FailureView::BudgetExhausted])
    } else {
        match step_spec(m, code, (fuel - 1) as nat) {
            Ok(next) => reduce_spec(m, next, (fuel - 1) as nat),
            Err(failures) => Err(failures),
        }
    }
}

/// One round of the reduction loop on a sequence that holds a call.
pub open spec fn step_spec(m: Machine, code: Code, fuel: nat) -> Result<Code, Failures>
    decreases fuel, 4int, code, 0int,
{
    if has_pair(code) {
        let (open, close) = first_pair(code);
        match eval_spec(m, code.subrange(open + 1, close), fuel) {
            Ok(inner) => Ok(spliced(code, open, close + 1, inner)),
            Err(failures) => Err(failures),
        }
    } else {
        let at = first_call(code);
        dissolve_spec(m, code, code[at]->Call_0, 0, at, fuel)
    }
}

/// The first case at or behind `from` whose condition, with the arguments
/// put in and evaluated, holds; `None` where there is none.
pub open spec fn select_spec(
    m: Machine,
    cases: Seq<CaseView>,
    args: Code,
    fuel: nat,
    from: int,
) -> Result<Option<int>, Failures>
    decreases fuel, 2int, cases, cases.len() - from,
{
    if from < 0 || from >= cases.len() {
        Ok(None)
    } else {
        match resolve_spec(cases[from].0, args) {
            Err(failure) => Err(seq![failure]),
            Ok(condition) => match eval_spec(m, condition, fuel) {
                Err(failures) => Err(failures),
                Ok(reduced) => if truthy(reduced) {
                    Ok(Some(from))
                } else {
                    select_spec(m, cases, args, fuel, from + 1)
                },
            },
        }
    }
}

/// The expansion of a container call that stands at `end` in `code`, with
/// `code[start..end]` as its arguments: `body` with the arguments put in
/// stands where the call stood, and the arguments that a parameter of
/// `visited`, or of a group in it, captures are taken out. The other
/// arguments stay where they are.
pub open spec fn expand_spec(body: Code, visited: Code, code: Code, start: int, end: int) -> Result<
    Code,
    Failures,
> {
    let args = code.subrange(start, end);
    match resolve_spec(body, args) {
        Err(failure) => Err(seq![failure]),
        Ok(replacement) => match first_misfit(flatten_once(visited), args.len() as int) {
            Some(range) => Err(seq![FailureView::MalformedCapture(range)]),
            None => Ok(
                code.subrange(0, start) + retained(args, flatten_once(visited)) + replacement
                    + code.subrange(end + 1, code.len() as int),
            ),
        },
    }
}

/// The dissolution of the call `func` that stands at `end` in `code`, with
/// `code[start..end]` as its arguments.
pub open spec fn dissolve_spec(
    m: Machine,
    code: Code,
    func: FuncView,
    start: int,
    end: int,
    fuel: nat,
) -> Result<Code, Failures>
    decreases fuel, 3int, code, 0int,
{
    let args = code.subrange(start, end);
    match func {
        FuncView::Function(name) => match (m.functions)(name, args) {
            None => Err(seq![FailureView::UnknownFunction(name)]),
            Some(Err(message)) => Err(seq![FailureView::BuiltinFailure(name, message)]),
            Some(Ok(replacement)) => Ok(spliced(code, start, end + 1, replacement)),
        },
        FuncView::Container(name) => if !m.containers.contains_key(name) {
            Err(seq![FailureView::UnknownContainer(name)])
        } else {
            match select_spec(m, m.containers[name], args, fuel, 0) {
                Err(failures) => Err(failures),
                Ok(chosen) => expand_spec(
                    chosen_result(m.containers[name], chosen),
                    visited_results(m.containers[name], chosen),
                    code,
                    start,
                    end,
                ),
            }
        },
    }
}

// ---------------------------------------------------------------------------
// Sections

/// The cases that the definition of a container registers: its own, then one
/// whose condition always holds and whose result is the default body.
pub open spec fn stored_cases(section: SectionView) -> Seq<CaseView> {
    let own = match section.cases {
        Some(cases) => cases,
        None => Seq::empty(),
    };
    own.push((seq![TokenView::Value(TRUE_BITS)], section.default_case))
}

/// The registry after the definitions among `sections` have been registered
/// in order.
pub open spec fn registered(
    containers: Map<Seq<char>, Seq<CaseView>>,
    sections: Seq<SectionView>,
) -> Map<Seq<char>, Seq<CaseView>>
    decreases sections.len(),
{
    if sections.len() == 0 {
        containers
    } else {
        let before = registered(containers, sections.drop_last());
        match sections.last().container {
            Some(name) => before.insert(name, stored_cases(sections.last())),
            None => before,
        }
    }
}

/// The outcome of the plain expression at `at`: its evaluation with the
/// definitions before it registered. No other plain expression has a part
/// in it.
pub open spec fn section_outcome(m: Machine, sections: Seq<SectionView>, at: int, fuel: nat) -> Result<
    Code,
    Failures,
> {
    eval_spec(
        Machine { containers: registered(m.containers, sections.take(at)), functions: m.functions },
        sections[at].default_case,
        fuel,
    )
}

/// The outcomes of the plain expressions among the first `n` sections, in
/// order.
pub open spec fn section_outcomes(m: Machine, sections: Seq<SectionView>, n: int, fuel: nat) -> Seq<
    Result<Code, Failures>,
>
    decreases n,
{
    if n <= 0 {
        Seq::empty()
    } else {
        let before = section_outcomes(m, sections, n - 1, fuel);
        match sections[n - 1].container {
            Some(_) => before,
            None => before.push(section_outcome(m, sections, n - 1, fuel)),
        }
    }
}

/// What processing `sections` returns: the results of the plain expressions,
/// or, where any of them failed, the failures of all of them.
pub open spec fn sections_spec(m: Machine, sections: Seq<SectionView>, fuel: nat) -> Result<
    Seq<Code>,
    Failures,
> {
    let outcomes = section_outcomes(m, sections, sections.len() as int, fuel);
    if all_ok(outcomes) {
        Ok(collect_values(outcomes))
    } else {
        Err(collect_failures(outcomes))
    }
}

} // verus!
