//! The ways in which an evaluation fails.

use vstd::prelude::*;
use crate::models::Range;

verus! {

/// One failure of an evaluation.
#[derive(Debug, PartialEq, Eq)]
pub enum Failure {
    /// A call names a container that is not registered.
    UnknownContainer(String),
    /// A call names a function that the table does not hold.
    UnknownFunction(String),
    /// A built-in function reported a failure: its name, then its message.
    BuiltinFailure(String, String),
    /// A parameter names an argument that the call does not have.
    MalformedCapture(Range),
    /// The budget of reduction steps ran out before the sequence was reduced.
    BudgetExhausted,
}

/// The view of a [`Failure`].
pub enum FailureView {
    UnknownContainer(Seq<char>),
    UnknownFunction(Seq<char>),
    BuiltinFailure(Seq<char>, Seq<char>),
    MalformedCapture(Range),
    BudgetExhausted,
}

impl DeepView for Failure {
    type V = FailureView;

    open spec fn deep_view(&self) -> FailureView {
        match self {
            Failure::UnknownContainer(name) => FailureView::UnknownContainer(name@),
            Failure::UnknownFunction(name) => FailureView::UnknownFunction(name@),
            Failure::BuiltinFailure(name, message) => FailureView::BuiltinFailure(name@, message@),
            Failure::MalformedCapture(range) => FailureView::MalformedCapture(*range),
            Failure::BudgetExhausted => FailureView::BudgetExhausted,
        }
    }
}

/// Why a program did not come to results: its front end rejected the source
/// text, or its evaluation failed.
#[derive(Debug, PartialEq, Eq)]
pub enum Rejection<E> {
    /// What the front end reported.
    Syntax(E),
    /// The failures of the evaluation.
    Evaluation(Vec<Failure>),
}

impl Clone for Failure {
    fn clone(&self) -> (res: Self)
        ensures
            res.deep_view() == self.deep_view(),
    {
        match self {
            Failure::UnknownContainer(name) => Failure::UnknownContainer(name.clone()),
            Failure::UnknownFunction(name) => Failure::UnknownFunction(name.clone()),
            Failure::BuiltinFailure(name, message) => Failure::BuiltinFailure(
                name.clone(),
                message.clone(),
            ),
            Failure::MalformedCapture(range) => Failure::MalformedCapture(*range),
            Failure::BudgetExhausted => Failure::BudgetExhausted,
        }
    }
}


} // verus!
