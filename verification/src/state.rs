//! The state of an evaluator: the registry of containers, the table of
//! built-in functions and the budget of reduction steps.

use vstd::prelude::*;
use crate::functions::{Oracle, WFunctions};
use crate::models::{CaseView, WCase};
use crate::semantics::Machine;

verus! {

/// One entry of the registry: the name of a container and its cases.
pub type Entry = (String, Vec<WCase>);

/// The registry that a sequence of entries makes: a later entry of a name
/// takes the place of an earlier one.
pub open spec fn entries_map(entries: Seq<Entry>) -> Map<Seq<char>, Seq<CaseView>>
    decreases entries.len(),
{
    if entries.len() == 0 {
        Map::empty()
    } else {
        entries_map(entries.drop_last()).insert(entries.last().0@, entries.last().1.deep_view())
    }
}

/// The last entry of a name is the one that the registry holds.
pub proof fn lemma_entries_found(entries: Seq<Entry>, name: Seq<char>, at: int)
    requires
        0 <= at < entries.len(),
        entries[at].0@ == name,
        forall|i: int| at < i < entries.len() ==> entries[i].0@ != name,
    ensures
        entries_map(entries).contains_key(name),
        entries_map(entries)[name] == entries[at].1.deep_view(),
    decreases entries.len(),
{
    if at < entries.len() - 1 {
        lemma_entries_found(entries.drop_last(), name, at);
    }
}

/// A name that no entry has is not in the registry.
pub proof fn lemma_entries_absent(entries: Seq<Entry>, name: Seq<char>)
    requires
        forall|i: int| 0 <= i < entries.len() ==> entries[i].0@ != name,
    ensures
        !entries_map(entries).contains_key(name),
    decreases entries.len(),
{
    if entries.len() > 0 {
        lemma_entries_absent(entries.drop_last(), name);
    }
}

/// An evaluator's state.
pub struct State<B> {
    containers: Vec<Entry>,
    functions: B,
    budget: usize,
}

impl<B: WFunctions> State<B> {
    /// The registry: the cases of each registered container, by name.
    pub closed spec fn containers(&self) -> Map<Seq<char>, Seq<CaseView>> {
        entries_map(self.containers@)
    }

    /// The table of built-in functions.
    pub closed spec fn functions(&self) -> &B {
        &self.functions
    }

    /// The budget of reduction rounds of each evaluation.
    pub closed spec fn budget(&self) -> nat {
        self.budget as nat
    }

    /// What the evaluator works with, where `model` stands for the table.
    pub open spec fn machine(&self, model: Oracle) -> Machine {
        Machine { containers: self.containers(), functions: model }
    }

    /// A state with an empty registry, the given table of built-in functions
    /// and a budget of reduction rounds for each evaluation.
    pub fn new(functions: B, budget: usize) -> (state: Self)
        ensures
            state.containers() == Map::<Seq<char>, Seq<CaseView>>::empty(),
            *state.functions() == functions,
            state.budget() == budget,
    {
        State { containers: Vec::new(), functions, budget }
    }

    /// Registers the cases of a container under its name. A name that is
    /// registered again gets the new cases.
    pub fn insert(&mut self, name: String, cases: Vec<WCase>)
        ensures
            final(self).containers() == old(self).containers().insert(name@, cases.deep_view()),
            final(self).functions() == old(self).functions(),
            final(self).budget() == old(self).budget(),
    {
        let ghost before = self.containers@;
        self.containers.push((name, cases));
        assert(self.containers@.drop_last() == before);
    }

    /// The cases registered under a name; `None` where the name is unknown.
    pub fn get(&self, name: &String) -> (cases: Option<&Vec<WCase>>)
        ensures
            match cases {
                Some(found) => self.containers().contains_key(name@) && found.deep_view()
                    == self.containers()[name@],
                None => !self.containers().contains_key(name@),
            },
    {
        let mut i: usize = self.containers.len();
        while i > 0
            invariant
                i <= self.containers.len(),
                forall|j: int| i <= j < self.containers.len() ==> self.containers[j].0@ != name@,
            decreases i,
        {
            i -= 1;
            if self.containers[i].0 == *name {
                proof {
                    lemma_entries_found(self.containers@, name@, i as int);
                }
                return Some(&self.containers[i].1);
            }
        }
        proof {
            lemma_entries_absent(self.containers@, name@);
        }
        None
    }

    /// The table of built-in functions.
    pub fn table(&self) -> (table: &B)
        ensures
            table == self.functions(),
    {
        &self.functions
    }

    /// The budget of reduction rounds of each evaluation.
    pub fn steps(&self) -> (steps: usize)
        ensures
            steps == self.budget(),
    {
        self.budget
    }
}

} // verus!
