//! Evaluation core of a small postfix expression language.
//!
//! A program is a flat sequence of tokens: numbers, groups, parentheses,
//! parameters and calls. A call stands behind its arguments. Evaluation
//! rewrites the sequence until no call is left at its top level:
//!
//! * First every group is replaced by the group of what its contents
//!   evaluate to.
//! * Then, round by round: where the sequence holds a matched pair of
//!   parentheses, what stands in the first such pair is evaluated and takes
//!   the place of the pair. Otherwise the leftmost call is dissolved, with
//!   all that stands before it as its arguments.
//! * A call of a built-in function and its arguments are replaced by what
//!   the function returns. A call of a container is replaced by the result of
//!   the first of its cases whose condition holds, with the arguments put in
//!   for the parameters; the arguments that the results of the visited cases
//!   capture are taken out, the others stay.
//!
//! Parameters name arguments by reverse index: index 0 is the argument
//! nearest the call. A condition is false where its first token is the
//! number zero, and true otherwise.
//!
//! Reduction need not come to an end, so every evaluation runs within a
//! budget of rounds, and fails with [`failure::Failure::BudgetExhausted`]
//! where the budget runs out. A reduction loop takes one unit for each round;
//! what a round evaluates on the way gets the units that are left.
//!
//! The modules:
//!
//! * [`models`]: tokens, ranges, sections, and their mathematical views.
//! * [`failure`]: the failures of an evaluation.
//! * [`functions`]: the table of built-in functions and its model.
//! * [`state`]: the registry of containers, the table and the budget.
//! * [`semantics`]: what evaluation means, over the views.
//! * [`resolver`]: substitution of parameters.
//! * [`utils`]: call sites, parentheses, splicing.
//! * [`cleanup`]: expansion of a container call and removal of captured
//!   arguments.
//! * [`evaluator`]: the evaluator itself, proved against the semantics.
//! * [`laws`]: what holds of every evaluation.

pub mod cleanup;
pub mod evaluator;
pub mod failure;
pub mod functions;
pub mod laws;
pub mod models;
pub mod resolver;
pub mod semantics;
pub mod state;
pub mod utils;
