//! The table of built-in functions that an evaluator is given.
//!
//! What the functions compute is the table's own matter. The evaluator's
//! contracts speak of a table through a model, a mathematical function from
//! names and arguments to answers, and hold for every model that the table
//! agrees with. A table whose `call` states in its `ensures` what it answers,
//! as a function of the name and of the views of the arguments, agrees with
//! the model that this function is.

use vstd::prelude::*;
use crate::models::{TokenView, WTokens};

verus! {

/// What a built-in function hands back: the tokens that take the place of the
/// call and its arguments, or the message of the failure it reports.
pub type Outcome = Result<WTokens, String>;

/// The view of an [`Outcome`].
pub type OutcomeView = Result<Seq<TokenView>, Seq<char>>;

/// The view of the answer of a table: `None` where the name is not in it.
pub open spec fn answer_view(answer: Option<Outcome>) -> Option<OutcomeView> {
    match answer {
        None => None,
        Some(Ok(tokens)) => Some(Ok(tokens.deep_view())),
        Some(Err(message)) => Some(Err(message@)),
    }
}

/// A fixed table from names to operations on token sequences. An operation
/// takes the arguments of a call and gives the tokens that stand for the call
/// and its arguments, or fails with a message.
pub trait WFunctions {
    /// Looks `name` up and applies its operation to `args`; `None` where the
    /// table has no such name.
    fn call(&self, name: &str, args: WTokens) -> Option<Outcome>;
}

/// The mathematical model of a table: the answer for each name and each
/// sequence of arguments.
pub type Oracle = spec_fn(Seq<char>, Seq<TokenView>) -> Option<OutcomeView>;

/// Whether a table answers as `model` says, whatever it is called with: every
/// answer that `call` may give to a name and arguments is the one that the
/// model has for that name and the views of those arguments.
pub open spec fn agrees<B: WFunctions>(table: &B, model: Oracle) -> bool {
    forall|name: &str, args: WTokens, answer: Option<Outcome>|
        #[trigger] call_ensures(B::call, (table, name, args), answer) ==> answer_view(answer)
            == model(name@, args.deep_view())
}

/// The model of the table without entries.
pub open spec fn no_functions() -> Oracle {
    |name: Seq<char>, args: Seq<TokenView>| None
}

/// The table that knows no function.
pub struct NoFunctions;

impl WFunctions for NoFunctions {
    fn call(&self, name: &str, args: WTokens) -> (answer: Option<Outcome>)
        ensures
            answer is None,
    {
        None
    }
}

/// The empty table agrees with its model.
pub proof fn lemma_no_functions_agrees()
    ensures
        agrees(&NoFunctions, no_functions()),
{
}

} // verus!
