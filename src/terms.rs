use vstd::prelude::*;

verus! {

/// A term as the parser hands it over: a variable or a constant by name, or a
/// structure with a functor name and its ordered arguments.
#[derive(Debug)]
pub enum AbstractTerm {
    Variable(String),
    Constant(String),
    Structure(String, Vec<AbstractTerm>),
}

/// A fact: a head with no body.
#[derive(Debug)]
pub struct AbstractFact {
    pub term: AbstractTerm,
}

/// A rule `head :- goal, goal, ...`.
#[derive(Debug)]
pub struct AbstractRule {
    pub head: AbstractTerm,
    pub goals: Vec<AbstractTerm>,
}

/// One parsed clause (a query has the shape of a fact).
#[derive(Debug)]
pub enum AbstractProgram {
    Fact(AbstractFact),
    Rule(AbstractRule),
}

impl AbstractTerm {
    pub open spec fn spec_name(&self) -> Seq<char> {
        match self {
            AbstractTerm::Variable(name) => name@,
            AbstractTerm::Constant(name) => name@,
            AbstractTerm::Structure(name, _) => name@,
        }
    }

    pub open spec fn spec_arity(&self) -> nat {
        match self {
            AbstractTerm::Structure(_, args) => args@.len(),
            _ => 0nat,
        }
    }

    pub open spec fn is_variable(&self) -> bool {
        self is Variable
    }

    /// Number of arguments: zero for variables and constants.
    pub fn arity(&self) -> (r: usize)
        ensures
            r == self.spec_arity(),
    {
        match self {
            AbstractTerm::Variable(_) => 0,
            AbstractTerm::Constant(_) => 0,
            AbstractTerm::Structure(_, args) => args.len(),
        }
    }

    /// The variable, constant or functor name.
    pub fn name(&self) -> (r: &str)
        ensures
            r@ == self.spec_name(),
    {
        match self {
            AbstractTerm::Variable(name) => name.as_str(),
            AbstractTerm::Constant(name) => name.as_str(),
            AbstractTerm::Structure(name, _) => name.as_str(),
        }
    }
}

impl AbstractFact {
    pub fn arity(&self) -> (r: usize)
        ensures
            r == self.term.spec_arity(),
    {
        self.term.arity()
    }

    pub fn name(&self) -> (r: &str)
        ensures
            r@ == self.term.spec_name(),
    {
        self.term.name()
    }
}

} // verus!
