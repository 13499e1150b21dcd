use wlang::failure::Failure;
use wlang::models::{is_truthy, Range, Token, WFuncVariant};
use wlang::resolver::{fits, resolve};
use wlang::utils::{first_function, special_pairs, splice};

fn value(x: f64) -> Token {
    Token::Value(x.to_bits())
}

fn parameter(range: Range) -> Token {
    Token::Parameter(range)
}

#[test]
fn reverse_index_zero_is_the_last_argument() {
    let args = vec![value(1.0), value(2.0)];
    assert_eq!(resolve(&vec![parameter(Range::Full(0, 0))], &args), Ok(vec![value(2.0)]));
    assert_eq!(resolve(&vec![parameter(Range::Full(1, 1))], &args), Ok(vec![value(1.0)]));
}

#[test]
fn from_captures_out_to_the_far_end() {
    let args = vec![value(1.0), value(2.0)];
    assert_eq!(
        resolve(&vec![parameter(Range::From(0))], &args),
        Ok(vec![value(1.0), value(2.0)])
    );
    assert_eq!(resolve(&vec![parameter(Range::From(1))], &args), Ok(vec![value(1.0)]));
    assert_eq!(resolve(&vec![parameter(Range::From(2))], &args), Ok(vec![]));
    assert_eq!(resolve(&vec![parameter(Range::From(7))], &args), Ok(vec![]));
    assert_eq!(resolve(&vec![parameter(Range::From(0))], &vec![]), Ok(vec![]));
}

#[test]
fn to_captures_from_the_near_end() {
    let args = vec![value(1.0), value(2.0), value(3.0)];
    assert_eq!(resolve(&vec![parameter(Range::To(0))], &args), Ok(vec![value(3.0)]));
    assert_eq!(
        resolve(&vec![parameter(Range::To(1))], &args),
        Ok(vec![value(2.0), value(3.0)])
    );
    assert_eq!(resolve(&vec![parameter(Range::To(2))], &args), Ok(args.clone()));
    assert_eq!(
        resolve(&vec![parameter(Range::To(3))], &args),
        Err(Failure::MalformedCapture(Range::To(3)))
    );
    assert_eq!(
        resolve(&vec![parameter(Range::To(0))], &vec![]),
        Err(Failure::MalformedCapture(Range::To(0)))
    );
}

#[test]
fn full_captures_a_closed_run_in_argument_order() {
    let args = vec![value(1.0), value(2.0), value(3.0), value(4.0)];
    assert_eq!(
        resolve(&vec![parameter(Range::Full(1, 2))], &args),
        Ok(vec![value(2.0), value(3.0)])
    );
    assert_eq!(resolve(&vec![parameter(Range::Full(0, 3))], &args), Ok(args.clone()));
    assert_eq!(resolve(&vec![parameter(Range::Full(2, 1))], &args), Ok(vec![]));
    assert_eq!(resolve(&vec![parameter(Range::Full(9, 1))], &args), Ok(vec![]));
    assert_eq!(
        resolve(&vec![parameter(Range::Full(3, 4))], &args),
        Err(Failure::MalformedCapture(Range::Full(3, 4)))
    );
}

#[test]
fn other_tokens_pass_through() {
    let args = vec![value(1.0), value(2.0)];
    let tokens = vec![
        value(9.0),
        parameter(Range::Full(0, 0)),
        Token::Group(vec![parameter(Range::Full(0, 0))]),
        Token::Call(WFuncVariant::Function("sum".to_string())),
        Token::Open,
        parameter(Range::From(0)),
        Token::Close,
    ];
    assert_eq!(
        resolve(&tokens, &args),
        Ok(vec![
            value(9.0),
            value(2.0),
            Token::Group(vec![parameter(Range::Full(0, 0))]),
            Token::Call(WFuncVariant::Function("sum".to_string())),
            Token::Open,
            value(1.0),
            value(2.0),
            Token::Close,
        ])
    );
}

#[test]
fn first_misfit_is_reported() {
    let args = vec![value(1.0)];
    let tokens = vec![
        parameter(Range::Full(0, 0)),
        parameter(Range::To(4)),
        parameter(Range::Full(5, 5)),
    ];
    assert_eq!(resolve(&tokens, &args), Err(Failure::MalformedCapture(Range::To(4))));
}

#[test]
fn fitting_of_ranges() {
    assert!(fits(Range::Full(0, 1), 2));
    assert!(!fits(Range::Full(0, 2), 2));
    assert!(fits(Range::Full(3, 2), 0));
    assert!(fits(Range::From(0), 0));
    assert!(fits(Range::From(9), 2));
    assert!(fits(Range::To(1), 2));
    assert!(!fits(Range::To(2), 2));
    assert!(!fits(Range::To(0), 0));
}

#[test]
fn truth_of_conditions() {
    assert!(is_truthy(&vec![]));
    assert!(is_truthy(&vec![value(1.0)]));
    assert!(is_truthy(&vec![value(-3.5), value(0.0)]));
    assert!(!is_truthy(&vec![value(0.0)]));
    assert!(!is_truthy(&vec![value(-0.0), value(1.0)]));
    assert!(is_truthy(&vec![value(f64::NAN)]));
    assert!(is_truthy(&vec![Token::Group(vec![value(0.0)])]));
    assert!(is_truthy(&vec![Token::Open]));
}

#[test]
fn leftmost_call_and_its_span() {
    let sum = WFuncVariant::Function("sum".to_string());
    let pick = WFuncVariant::Container("pick".to_string());
    let code = vec![
        value(1.0),
        Token::Group(vec![Token::Call(sum.clone())]),
        Token::Call(pick.clone()),
        Token::Call(sum.clone()),
    ];
    assert_eq!(first_function(&code), Some((0..2, pick)));
    assert_eq!(first_function(&vec![Token::Call(sum.clone())]), Some((0..0, sum)));
    assert_eq!(first_function(&vec![value(1.0), Token::Open]), None);
    assert_eq!(first_function(&vec![]), None);
}

#[test]
fn first_matched_pair_of_parentheses() {
    let o = || Token::Open;
    let c = || Token::Close;
    let v = || value(1.0);
    assert_eq!(special_pairs(&vec![v(), o(), v(), c(), v()]), Some((1, 3)));
    assert_eq!(special_pairs(&vec![o(), o(), v(), c(), v(), c(), o(), c()]), Some((0, 5)));
    assert_eq!(special_pairs(&vec![o(), c()]), Some((0, 1)));
    // A closing parenthesis before the first opening one is passed over.
    assert_eq!(special_pairs(&vec![c(), o(), v(), c()]), Some((1, 3)));
    // An opening parenthesis that is never closed is passed over too.
    assert_eq!(special_pairs(&vec![o(), o(), v(), c()]), Some((1, 3)));
    assert_eq!(special_pairs(&vec![o(), v(), o()]), None);
    assert_eq!(special_pairs(&vec![o(), o(), c(), o(), c()]), Some((1, 2)));
    assert_eq!(special_pairs(&vec![c(), v()]), None);
    assert_eq!(special_pairs(&vec![]), None);
    // Parentheses inside a group do not count.
    assert_eq!(special_pairs(&vec![o(), Token::Group(vec![c()]), v()]), None);
}

#[test]
fn splice_replaces_a_part() {
    let mut code = vec![value(1.0), value(2.0), value(3.0), value(4.0)];
    splice(&mut code, 1, 3, vec![value(9.0)]);
    assert_eq!(code, vec![value(1.0), value(9.0), value(4.0)]);
    splice(&mut code, 3, 3, vec![value(5.0), value(6.0)]);
    assert_eq!(code, vec![value(1.0), value(9.0), value(4.0), value(5.0), value(6.0)]);
    splice(&mut code, 0, 5, vec![]);
    assert_eq!(code, vec![]);
}
