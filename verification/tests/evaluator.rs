use wlang::evaluator::WEval;
use wlang::failure::{Failure, Rejection};
use wlang::functions::{NoFunctions, Outcome, WFunctions};
use wlang::models::{Range, Token, WCode, WFuncVariant, WTokens};
use wlang::state::State;

/// A small table of arithmetic on the numbers that stand before a call.
struct Arithmetic;

fn numbers(args: &WTokens) -> Option<Vec<f64>> {
    let mut out = Vec::new();
    for token in args {
        match token {
            Token::Value(bits) => out.push(f64::from_bits(*bits)),
            _ => return None,
        }
    }
    Some(out)
}

impl WFunctions for Arithmetic {
    fn call(&self, name: &str, args: WTokens) -> Option<Outcome> {
        let known = matches!(name, "sum" | "sub" | "mul" | "eq" | "fail");
        if !known {
            return None;
        }
        if name == "fail" {
            return Some(Err(format!("asked to fail")));
        }
        let values = match numbers(&args) {
            Some(values) => values,
            None => return Some(Err(format!("not a number"))),
        };
        let result = match name {
            "sum" => values.iter().sum::<f64>(),
            "mul" => values.iter().product::<f64>(),
            "sub" => match values.split_first() {
                Some((first, rest)) => first - rest.iter().sum::<f64>(),
                None => 0.0,
            },
            _ => {
                if values.len() == 2 && values[0] == values[1] {
                    1.0
                } else {
                    0.0
                }
            }
        };
        Some(Ok(vec![num(result)]))
    }
}

fn num(x: f64) -> Token {
    Token::Value(x.to_bits())
}

fn function(name: &str) -> Token {
    Token::Call(WFuncVariant::Function(name.to_string()))
}

fn container(name: &str) -> Token {
    Token::Call(WFuncVariant::Container(name.to_string()))
}

fn param(range: Range) -> Token {
    Token::Parameter(range)
}

fn state() -> State<Arithmetic> {
    State::new(Arithmetic, 1000)
}

fn define(name: &str, cases: Vec<(WTokens, WTokens)>, default_case: WTokens) -> WCode {
    WCode { container: Some(name.to_string()), cases: Some(cases), default_case }
}

fn plain(tokens: WTokens) -> WCode {
    WCode { container: None, cases: None, default_case: tokens }
}

#[test]
fn values_evaluate_to_themselves() {
    let s = state();
    assert_eq!(s.eval(vec![num(1.0), num(2.0)]), Ok(vec![num(1.0), num(2.0)]));
    assert_eq!(s.eval(vec![]), Ok(vec![]));
}

#[test]
fn function_takes_all_that_stands_before_it() {
    let s = state();
    assert_eq!(s.eval(vec![num(1.0), num(2.0), num(3.0), function("sum")]), Ok(vec![num(6.0)]));
}

#[test]
fn leftmost_call_is_dissolved_first() {
    let s = state();
    // 10 4 sub 2 mul = (10 - 4) * 2
    let code = vec![num(10.0), num(4.0), function("sub"), num(2.0), function("mul")];
    assert_eq!(s.eval(code), Ok(vec![num(12.0)]));
}

#[test]
fn tokens_behind_the_call_stay() {
    let s = state();
    let code = vec![num(1.0), num(2.0), function("sum"), num(9.0)];
    assert_eq!(s.eval(code), Ok(vec![num(3.0), num(9.0)]));
}

#[test]
fn parentheses_are_reduced_before_the_call_across_them() {
    let s = state();
    // 10 ( 1 2 sum ) sub: without the priority, `sum` would be handed `10 (`.
    let code = vec![
        num(10.0),
        Token::Open,
        num(1.0),
        num(2.0),
        function("sum"),
        Token::Close,
        function("sub"),
    ];
    assert_eq!(s.eval(code), Ok(vec![num(7.0)]));
}

#[test]
fn parentheses_before_an_earlier_call() {
    let s = state();
    // 1 2 sum ( 3 4 mul ) 5 sum
    let code = vec![
        num(1.0),
        num(2.0),
        function("sum"),
        Token::Open,
        num(3.0),
        num(4.0),
        function("mul"),
        Token::Close,
        num(5.0),
        function("sum"),
    ];
    assert_eq!(s.eval(code), Ok(vec![num(20.0)]));
}

#[test]
fn nested_parentheses() {
    let s = state();
    // ( 2 ( 3 4 sum ) mul ) 1 sub
    let code = vec![
        Token::Open,
        num(2.0),
        Token::Open,
        num(3.0),
        num(4.0),
        function("sum"),
        Token::Close,
        function("mul"),
        Token::Close,
        num(1.0),
        function("sub"),
    ];
    assert_eq!(s.eval(code), Ok(vec![num(13.0)]));
}

#[test]
fn matched_parentheses_behind_an_unmatched_one_are_reduced_first() {
    let s = state();
    // 7 ( ( 1 2 sum ) 4: the pair is reduced, and no call is left.
    let code = vec![
        num(7.0),
        Token::Open,
        Token::Open,
        num(1.0),
        num(2.0),
        function("sum"),
        Token::Close,
        num(4.0),
    ];
    assert_eq!(s.eval(code), Ok(vec![num(7.0), Token::Open, num(3.0), num(4.0)]));
}

#[test]
fn parentheses_without_a_call_stay() {
    let s = state();
    let code = vec![Token::Open, num(1.0), Token::Close];
    assert_eq!(s.eval(code.clone()), Ok(code));
}

#[test]
fn groups_are_evaluated_in_place() {
    let s = state();
    let code = vec![
        num(1.0),
        Token::Group(vec![num(2.0), num(3.0), function("sum")]),
        Token::Group(vec![Token::Group(vec![num(4.0), num(5.0), function("mul")])]),
    ];
    assert_eq!(
        s.eval(code),
        Ok(vec![
            num(1.0),
            Token::Group(vec![num(5.0)]),
            Token::Group(vec![Token::Group(vec![num(20.0)])]),
        ])
    );
}

#[test]
fn failures_of_all_groups_are_collected() {
    let s = state();
    let code = vec![
        Token::Group(vec![function("first")]),
        num(1.0),
        Token::Group(vec![container("second")]),
    ];
    assert_eq!(
        s.eval(code),
        Err(vec![
            Failure::UnknownFunction("first".to_string()),
            Failure::UnknownContainer("second".to_string()),
        ])
    );
}

#[test]
fn unknown_function_fails() {
    let s = state();
    assert_eq!(
        s.eval(vec![num(1.0), function("nope")]),
        Err(vec![Failure::UnknownFunction("nope".to_string())])
    );
}

#[test]
fn unknown_container_fails() {
    let s = state();
    assert_eq!(
        s.eval(vec![num(1.0), container("nope")]),
        Err(vec![Failure::UnknownContainer("nope".to_string())])
    );
}

#[test]
fn builtin_failure_carries_name_and_message() {
    let s = state();
    assert_eq!(
        s.eval(vec![num(1.0), function("fail")]),
        Err(vec![Failure::BuiltinFailure("fail".to_string(), "asked to fail".to_string())])
    );
}

#[test]
fn empty_table_knows_no_function() {
    let s = State::new(NoFunctions, 10);
    assert_eq!(
        s.eval(vec![function("sum")]),
        Err(vec![Failure::UnknownFunction("sum".to_string())])
    );
}

#[test]
fn evaluating_a_result_again_changes_nothing() {
    let s = state();
    let code = vec![
        num(1.0),
        num(4.0),
        function("sum"),
        Token::Group(vec![num(2.0), num(3.0), function("sum")]),
        Token::Open,
        Token::Group(vec![Token::Group(vec![])]),
    ];
    let once = s.eval(code).unwrap();
    assert_eq!(
        once,
        vec![
            num(5.0),
            Token::Group(vec![num(5.0)]),
            Token::Open,
            Token::Group(vec![Token::Group(vec![])]),
        ]
    );
    let twice = s.eval(once.clone()).unwrap();
    assert_eq!(twice, once);
}

#[test]
fn group_that_a_result_brings_in_is_left_as_it_is() {
    let mut s = state();
    s.insert(
        "wrap".to_string(),
        vec![(vec![num(1.0)], vec![Token::Group(vec![num(1.0), num(2.0), function("sum")])])],
    );
    // Groups are evaluated before the reduction, not in what a call leaves.
    let once = s.eval(vec![container("wrap")]).unwrap();
    assert_eq!(once, vec![Token::Group(vec![num(1.0), num(2.0), function("sum")])]);
    assert_eq!(s.eval(once), Ok(vec![Token::Group(vec![num(3.0)])]));
}

#[test]
fn container_without_cases_gives_its_default_body() {
    let mut s = state();
    let sections = vec![
        define("seven", vec![], vec![num(3.0), num(4.0), function("sum")]),
        plain(vec![container("seven")]),
    ];
    let direct = s.eval(vec![num(3.0), num(4.0), function("sum")]);
    let results = s.wsection_eval(sections).unwrap();
    assert_eq!(results, vec![vec![num(7.0)]]);
    assert_eq!(direct, Ok(vec![num(7.0)]));
}

#[test]
fn container_without_cases_leaves_unused_arguments() {
    let mut s = state();
    let sections = vec![
        WCode { container: Some("two".to_string()), cases: None, default_case: vec![num(2.0)] },
        plain(vec![num(1.0), container("two")]),
    ];
    assert_eq!(s.wsection_eval(sections), Ok(vec![vec![num(1.0), num(2.0)]]));
}

#[test]
fn first_case_that_holds_is_chosen() {
    let mut s = state();
    // choose: | #0 1 eq -> 10 | #0 2 eq -> 20 | -> 30
    let cases = vec![
        (vec![param(Range::Full(0, 0)), num(1.0), function("eq")], vec![num(10.0)]),
        (vec![param(Range::Full(0, 0)), num(2.0), function("eq")], vec![num(20.0)]),
    ];
    let sections = vec![
        define("choose", cases, vec![num(30.0)]),
        plain(vec![num(1.0), container("choose")]),
        plain(vec![num(2.0), container("choose")]),
        plain(vec![num(3.0), container("choose")]),
    ];
    // The argument stays: no result of a visited case captures it.
    assert_eq!(
        s.wsection_eval(sections),
        Ok(vec![
            vec![num(1.0), num(10.0)],
            vec![num(2.0), num(20.0)],
            vec![num(3.0), num(30.0)],
        ])
    );
}

#[test]
fn later_conditions_are_not_evaluated() {
    let mut s = state();
    let cases = vec![
        (vec![num(1.0)], vec![num(10.0)]),
        (vec![function("fail")], vec![num(20.0)]),
        (vec![container("missing")], vec![num(30.0)]),
    ];
    s.insert("pick".to_string(), cases);
    assert_eq!(s.eval(vec![container("pick")]), Ok(vec![num(10.0)]));
}

#[test]
fn choice_visits_the_cases_up_to_the_chosen_one() {
    let s = state();
    let cases = vec![
        (vec![param(Range::Full(0, 0)), num(1.0), function("eq")], vec![num(10.0)]),
        (vec![param(Range::Full(0, 0)), num(2.0), function("eq")], vec![num(20.0), num(21.0)]),
        (vec![function("fail")], vec![num(30.0)]),
    ];
    assert_eq!(s.select_within(&cases, &vec![num(1.0)], 10), Ok((Some(0), vec![num(10.0)])));
    assert_eq!(
        s.select_within(&cases, &vec![num(2.0)], 10),
        Ok((Some(1), vec![num(10.0), num(20.0), num(21.0)]))
    );
    assert_eq!(
        s.select_within(&cases, &vec![num(3.0)], 10),
        Err(vec![Failure::BuiltinFailure("fail".to_string(), "asked to fail".to_string())])
    );
    assert_eq!(
        s.select_within(&cases[..2].to_vec(), &vec![num(3.0)], 10),
        Ok((None, vec![num(10.0), num(20.0), num(21.0)]))
    );
    assert_eq!(s.select_within(&vec![], &vec![], 10), Ok((None, vec![])));
    assert_eq!(
        s.select_within(&cases, &vec![], 10),
        Err(vec![Failure::MalformedCapture(Range::Full(0, 0))])
    );
    assert_eq!(
        s.select_within(&cases, &vec![num(1.0)], 0),
        Err(vec![Failure::BudgetExhausted])
    );
}

#[test]
fn failing_condition_fails_the_call() {
    let mut s = state();
    let cases = vec![
        (vec![num(0.0)], vec![num(10.0)]),
        (vec![function("fail")], vec![num(20.0)]),
    ];
    s.insert("pick".to_string(), cases);
    assert_eq!(
        s.eval(vec![container("pick")]),
        Err(vec![Failure::BuiltinFailure("fail".to_string(), "asked to fail".to_string())])
    );
}

#[test]
fn zero_of_either_sign_is_false() {
    let mut s = state();
    s.insert(
        "sign".to_string(),
        vec![
            (vec![param(Range::Full(0, 0))], vec![num(1.0)]),
            (vec![num(1.0)], vec![num(2.0)]),
        ],
    );
    assert_eq!(s.eval(vec![num(0.0), container("sign")]), Ok(vec![num(0.0), num(2.0)]));
    assert_eq!(s.eval(vec![num(-0.0), container("sign")]), Ok(vec![num(-0.0), num(2.0)]));
    assert_eq!(s.eval(vec![num(5.0), container("sign")]), Ok(vec![num(5.0), num(1.0)]));
    let nan = f64::NAN;
    assert_eq!(s.eval(vec![num(nan), container("sign")]), Ok(vec![num(nan), num(1.0)]));
}

#[test]
fn condition_that_is_no_number_holds() {
    let mut s = state();
    s.insert(
        "open".to_string(),
        vec![(vec![Token::Group(vec![])], vec![num(1.0)]), (vec![num(1.0)], vec![num(2.0)])],
    );
    s.insert(
        "nothing".to_string(),
        vec![(vec![], vec![num(1.0)]), (vec![num(1.0)], vec![num(2.0)])],
    );
    assert_eq!(s.eval(vec![container("open")]), Ok(vec![num(1.0)]));
    assert_eq!(s.eval(vec![container("nothing")]), Ok(vec![num(1.0)]));
}

#[test]
fn no_case_holds_without_a_default() {
    let mut s = state();
    s.insert(
        "never".to_string(),
        vec![(vec![num(0.0)], vec![param(Range::Full(0, 0)), num(10.0)])],
    );
    // The call goes, and so does the argument that the visited result captures.
    assert_eq!(s.eval(vec![num(8.0), num(9.0), container("never")]), Ok(vec![num(8.0)]));
}

#[test]
fn captured_trailing_argument_is_removed() {
    let s = {
        let mut s = state();
        s.insert(
            "last".to_string(),
            vec![(vec![num(1.0)], vec![param(Range::Full(0, 0)), num(7.0)])],
        );
        s
    };
    let mut code = vec![num(1.0), num(2.0), num(3.0), container("last"), num(9.0)];
    let arr = vec![num(1.0), num(2.0), num(3.0)];
    let outcome =
        s.dissolve(&mut code, WFuncVariant::Container("last".to_string()), &(0..3), arr);
    assert_eq!(outcome, Ok(()));
    assert_eq!(code, vec![num(1.0), num(2.0), num(3.0), num(7.0), num(9.0)]);
}

#[test]
fn argument_captured_twice_is_removed_once() {
    let mut s = state();
    s.insert(
        "twice".to_string(),
        vec![(vec![num(1.0)], vec![param(Range::Full(0, 0)), param(Range::Full(0, 0))])],
    );
    let mut code = vec![num(1.0), num(2.0), num(3.0), container("twice")];
    let arr = vec![num(1.0), num(2.0), num(3.0)];
    let outcome =
        s.dissolve(&mut code, WFuncVariant::Container("twice".to_string()), &(0..3), arr);
    assert_eq!(outcome, Ok(()));
    assert_eq!(code, vec![num(1.0), num(2.0), num(3.0), num(3.0)]);
}

#[test]
fn captured_arguments_are_removed_in_any_order_of_capture() {
    let mut s = state();
    s.insert(
        "pick".to_string(),
        vec![(
            vec![num(1.0)],
            vec![num(7.0), param(Range::Full(0, 0)), param(Range::Full(2, 2))],
        )],
    );
    let mut code = vec![num(1.0), num(2.0), num(3.0), num(4.0), container("pick"), num(9.0)];
    let arr = vec![num(1.0), num(2.0), num(3.0), num(4.0)];
    let outcome = s.dissolve(&mut code, WFuncVariant::Container("pick".to_string()), &(0..4), arr);
    assert_eq!(outcome, Ok(()));
    assert_eq!(code, vec![num(1.0), num(3.0), num(7.0), num(4.0), num(2.0), num(9.0)]);
}

#[test]
fn results_of_visited_cases_clear_arguments_too() {
    let mut s = state();
    s.insert(
        "visit".to_string(),
        vec![
            (vec![num(0.0)], vec![param(Range::Full(1, 1))]),
            (vec![num(1.0)], vec![param(Range::Full(0, 0))]),
            (vec![num(1.0)], vec![param(Range::Full(2, 2))]),
        ],
    );
    // The first two cases are visited: reverse indices 1 and 0 are cleared.
    assert_eq!(
        s.eval(vec![num(1.0), num(2.0), num(3.0), container("visit")]),
        Ok(vec![num(1.0), num(3.0)])
    );
}

#[test]
fn parameters_in_a_group_clear_arguments_but_are_not_replaced() {
    let mut s = state();
    s.insert(
        "wrap".to_string(),
        vec![(vec![num(1.0)], vec![Token::Group(vec![param(Range::Full(0, 0))])])],
    );
    assert_eq!(
        s.eval(vec![num(1.0), num(2.0), container("wrap")]),
        Ok(vec![num(1.0), Token::Group(vec![param(Range::Full(0, 0))])])
    );
}

#[test]
fn open_ranges_clear_what_they_capture() {
    let mut s = state();
    s.insert("tail".to_string(), vec![(vec![num(1.0)], vec![param(Range::From(1))])]);
    s.insert("head".to_string(), vec![(vec![num(1.0)], vec![param(Range::To(1))])]);
    s.insert("all".to_string(), vec![(vec![num(1.0)], vec![param(Range::From(0)), function("sum")])]);
    assert_eq!(
        s.eval(vec![num(1.0), num(2.0), num(3.0), container("tail")]),
        Ok(vec![num(3.0), num(1.0), num(2.0)])
    );
    assert_eq!(
        s.eval(vec![num(1.0), num(2.0), num(3.0), container("head")]),
        Ok(vec![num(1.0), num(2.0), num(3.0)])
    );
    assert_eq!(s.eval(vec![num(1.0), num(2.0), num(3.0), container("all")]), Ok(vec![num(6.0)]));
    assert_eq!(s.eval(vec![num(4.0), container("all")]), Ok(vec![num(4.0)]));
}

#[test]
fn parameter_outside_the_arguments_fails() {
    let mut s = state();
    s.insert("far".to_string(), vec![(vec![num(1.0)], vec![param(Range::Full(2, 2))])]);
    s.insert("cond".to_string(), vec![(vec![param(Range::To(5))], vec![num(1.0)])]);
    s.insert(
        "seen".to_string(),
        vec![
            (vec![num(0.0)], vec![Token::Group(vec![param(Range::To(3))])]),
            (vec![num(1.0)], vec![num(1.0)]),
        ],
    );
    assert_eq!(
        s.eval(vec![num(1.0), num(2.0), container("far")]),
        Err(vec![Failure::MalformedCapture(Range::Full(2, 2))])
    );
    assert_eq!(
        s.eval(vec![num(1.0), container("cond")]),
        Err(vec![Failure::MalformedCapture(Range::To(5))])
    );
    assert_eq!(
        s.eval(vec![num(1.0), container("seen")]),
        Err(vec![Failure::MalformedCapture(Range::To(3))])
    );
}

#[test]
fn failed_dissolve_leaves_the_code() {
    let s = state();
    let mut code = vec![num(1.0), function("nope")];
    let before = code.clone();
    let outcome =
        s.dissolve(&mut code, WFuncVariant::Function("nope".to_string()), &(0..1), vec![num(1.0)]);
    assert_eq!(outcome, Err(vec![Failure::UnknownFunction("nope".to_string())]));
    assert_eq!(code, before);
}

#[test]
fn function_dissolve_replaces_call_and_arguments() {
    let s = state();
    let mut code = vec![num(5.0), num(1.0), num(2.0), function("sum"), num(9.0)];
    let outcome = s.dissolve(
        &mut code,
        WFuncVariant::Function("sum".to_string()),
        &(1..3),
        vec![num(1.0), num(2.0)],
    );
    assert_eq!(outcome, Ok(()));
    assert_eq!(code, vec![num(5.0), num(3.0), num(9.0)]);
}

#[test]
fn recursion_in_a_container() {
    let mut s = state();
    // count: | #0 0 eq -> 100 | -> #0 1 sub count
    let sections = vec![
        define(
            "count",
            vec![(
                vec![param(Range::Full(0, 0)), num(0.0), function("eq")],
                vec![num(100.0)],
            )],
            vec![param(Range::Full(0, 0)), num(1.0), function("sub"), container("count")],
        ),
        plain(vec![num(3.0), container("count")]),
    ];
    assert_eq!(s.wsection_eval(sections), Ok(vec![vec![num(0.0), num(100.0)]]));
}

#[test]
fn budget_runs_out_on_endless_reduction() {
    let mut s = State::new(Arithmetic, 50);
    s.insert("again".to_string(), vec![(vec![num(1.0)], vec![container("again")])]);
    assert_eq!(s.eval(vec![container("again")]), Err(vec![Failure::BudgetExhausted]));
}

#[test]
fn budget_of_zero_allows_what_holds_no_call() {
    let s = State::new(Arithmetic, 0);
    assert_eq!(s.eval(vec![num(1.0)]), Ok(vec![num(1.0)]));
    assert_eq!(
        s.eval(vec![num(1.0), function("sum")]),
        Err(vec![Failure::BudgetExhausted])
    );
}

#[test]
fn each_round_takes_one_unit_of_budget() {
    // Two calls need two rounds.
    let code = || vec![num(1.0), function("sum"), function("sum")];
    assert_eq!(State::new(Arithmetic, 2).eval(code()), Ok(vec![num(1.0)]));
    assert_eq!(State::new(Arithmetic, 1).eval(code()), Err(vec![Failure::BudgetExhausted]));
}

#[test]
fn larger_budget_gives_the_same_outcome() {
    let code = || vec![num(1.0), num(2.0), function("sum"), num(3.0), function("mul")];
    let enough = State::new(Arithmetic, 2).eval(code());
    assert_eq!(enough, Ok(vec![num(9.0)]));
    assert_eq!(State::new(Arithmetic, 3).eval(code()), enough);
    assert_eq!(State::new(Arithmetic, 1000).eval(code()), enough);
    let unknown = || vec![function("nope")];
    let failed = State::new(Arithmetic, 1).eval(unknown());
    assert_eq!(failed, Err(vec![Failure::UnknownFunction("nope".to_string())]));
    assert_eq!(State::new(Arithmetic, 9).eval(unknown()), failed);
}

#[test]
fn sections_are_processed_in_order() {
    let mut s = state();
    let sections = vec![
        plain(vec![num(1.0), num(2.0), function("sum")]),
        define("ten", vec![], vec![num(10.0)]),
        plain(vec![container("ten"), num(1.0), function("sum")]),
    ];
    assert_eq!(s.wsection_eval(sections), Ok(vec![vec![num(3.0)], vec![num(11.0)]]));
    // The definition stays registered.
    assert_eq!(s.eval(vec![container("ten")]), Ok(vec![num(10.0)]));
}

#[test]
fn container_used_before_its_definition_is_unknown() {
    let mut s = state();
    let sections = vec![plain(vec![container("late")]), define("late", vec![], vec![num(1.0)])];
    assert_eq!(
        s.wsection_eval(sections),
        Err(vec![Failure::UnknownContainer("late".to_string())])
    );
    assert_eq!(s.eval(vec![container("late")]), Ok(vec![num(1.0)]));
}

#[test]
fn failures_of_all_sections_are_returned() {
    let mut s = state();
    let sections = vec![
        plain(vec![function("one")]),
        plain(vec![num(1.0)]),
        plain(vec![container("two")]),
    ];
    assert_eq!(
        s.wsection_eval(sections),
        Err(vec![
            Failure::UnknownFunction("one".to_string()),
            Failure::UnknownContainer("two".to_string()),
        ])
    );
}

#[test]
fn failing_section_does_not_change_the_others() {
    let good = || {
        vec![
            plain(vec![num(1.0), num(2.0), function("sum")]),
            define("ten", vec![], vec![num(10.0)]),
            plain(vec![container("ten")]),
        ]
    };
    let mut with_failure = good();
    with_failure.insert(1, plain(vec![function("nope")]));
    assert_eq!(state().wsection_eval(good()), Ok(vec![vec![num(3.0)], vec![num(10.0)]]));
    let mut s = state();
    assert_eq!(
        s.wsection_eval(with_failure),
        Err(vec![Failure::UnknownFunction("nope".to_string())])
    );
    // What the other sections registered is there all the same.
    assert_eq!(s.eval(vec![container("ten")]), Ok(vec![num(10.0)]));
}

#[test]
fn apply_processes_what_the_front_end_made() {
    let mut s = state();
    let parsed: Result<Vec<WCode>, String> = Ok(vec![
        define("ten", vec![], vec![num(10.0)]),
        plain(vec![container("ten"), num(1.0), function("sum")]),
    ]);
    assert_eq!(s.apply(parsed), Ok(vec![vec![num(11.0)]]));
    assert_eq!(s.eval(vec![container("ten")]), Ok(vec![num(10.0)]));
}

#[test]
fn apply_hands_on_what_the_front_end_rejected() {
    let mut s = state();
    let parsed: Result<Vec<WCode>, String> = Err("unexpected `|`".to_string());
    assert_eq!(s.apply(parsed), Err(Rejection::Syntax("unexpected `|`".to_string())));
}

#[test]
fn apply_returns_the_failures_of_the_evaluation() {
    let mut s = state();
    let parsed: Result<Vec<WCode>, String> =
        Ok(vec![plain(vec![function("nope")]), define("ten", vec![], vec![num(10.0)])]);
    assert_eq!(
        s.apply(parsed),
        Err(Rejection::Evaluation(vec![Failure::UnknownFunction("nope".to_string())]))
    );
    assert_eq!(s.eval(vec![container("ten")]), Ok(vec![num(10.0)]));
}

#[test]
fn name_registered_again_gets_the_new_cases() {
    let mut s = state();
    s.insert("n".to_string(), vec![(vec![num(1.0)], vec![num(1.0)])]);
    s.insert("other".to_string(), vec![(vec![num(1.0)], vec![num(5.0)])]);
    s.insert("n".to_string(), vec![(vec![num(1.0)], vec![num(2.0)])]);
    assert_eq!(s.eval(vec![container("n")]), Ok(vec![num(2.0)]));
    assert_eq!(s.get(&"n".to_string()), Some(&vec![(vec![num(1.0)], vec![num(2.0)])]));
    assert_eq!(s.get(&"missing".to_string()), None);
}
