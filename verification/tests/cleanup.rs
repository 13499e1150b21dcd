use wlang::cleanup::{expand_call, flatten, removal_positions, remove_all};
use wlang::failure::Failure;
use wlang::models::{clone_tokens, Range, Token, WFuncVariant};
use wlang::utils::clone_range;

fn n(x: f64) -> Token {
    Token::Value(x.to_bits())
}

fn p(range: Range) -> Token {
    Token::Parameter(range)
}

#[test]
fn flatten_opens_groups_one_level_deep() {
    let tokens = vec![
        n(1.0),
        Token::Group(vec![n(2.0), Token::Group(vec![n(3.0)]), p(Range::From(0))]),
        Token::Group(vec![]),
        Token::Close,
    ];
    assert_eq!(
        flatten(&tokens),
        vec![n(1.0), n(2.0), Token::Group(vec![n(3.0)]), p(Range::From(0)), Token::Close]
    );
    assert_eq!(flatten(&vec![]), vec![]);
}

#[test]
fn positions_come_once_and_rightmost_first() {
    assert_eq!(removal_positions(vec![0, 2, 0, 1, 2], 5), vec![4, 3, 2]);
    assert_eq!(removal_positions(vec![3, 0], 4), vec![3, 0]);
    assert_eq!(removal_positions(vec![1, 1, 1], 2), vec![0]);
    assert_eq!(removal_positions(vec![], 7), vec![]);
}

#[test]
fn remove_all_takes_the_listed_tokens_out() {
    let mut code = vec![n(0.0), n(1.0), n(2.0), n(3.0), n(4.0)];
    remove_all(&mut code, &vec![4, 2, 0]);
    assert_eq!(code, vec![n(1.0), n(3.0)]);
    remove_all(&mut code, &vec![]);
    assert_eq!(code, vec![n(1.0), n(3.0)]);
}

#[test]
fn expansion_puts_the_body_in_and_takes_captured_arguments_out() {
    let call = Token::Call(WFuncVariant::Container("c".to_string()));
    let mut code = vec![n(9.0), n(1.0), n(2.0), n(3.0), call, n(8.0)];
    let arr = vec![n(1.0), n(2.0), n(3.0)];
    let body = vec![p(Range::Full(1, 1)), n(7.0)];
    let visited = vec![p(Range::Full(0, 0)), Token::Group(vec![p(Range::Full(1, 1))])];
    assert_eq!(expand_call(&mut code, &body, &visited, &(1..4), &arr), Ok(()));
    // The arguments with the reverse indices 0 and 1 go, the one with 2 stays.
    assert_eq!(code, vec![n(9.0), n(1.0), n(2.0), n(7.0), n(8.0)]);
}

#[test]
fn expansion_that_fails_leaves_the_code() {
    let call = Token::Call(WFuncVariant::Container("c".to_string()));
    let mut code = vec![n(1.0), call];
    let before = clone_tokens(&code);
    let arr = vec![n(1.0)];
    let misfit = vec![p(Range::Full(1, 1))];
    let fitting = vec![p(Range::Full(0, 0))];
    assert_eq!(
        expand_call(&mut code, &misfit, &fitting, &(0..1), &arr),
        Err(Failure::MalformedCapture(Range::Full(1, 1)))
    );
    assert_eq!(code, before);
    assert_eq!(
        expand_call(&mut code, &fitting, &vec![Token::Group(vec![p(Range::To(4))])], &(0..1), &arr),
        Err(Failure::MalformedCapture(Range::To(4)))
    );
    assert_eq!(code, before);
}

#[test]
fn copies_are_equal_to_what_they_copy() {
    let code = vec![n(1.0), Token::Group(vec![n(2.0), Token::Open]), p(Range::To(3))];
    assert_eq!(clone_tokens(&code), code);
    assert_eq!(code[1].clone(), code[1]);
    assert_eq!(clone_range(&code, 1, 3), code[1..3].to_vec());
    assert_eq!(clone_range(&code, 2, 2), vec![]);
}
