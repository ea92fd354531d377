use vstd::prelude::*;

verus! {

/// A symbolic expression: the empty list, a number, a symbol, or a pair.
#[derive(Debug, PartialEq, Eq)]
pub enum Sexp {
    Nil,
    Integer(i64),
    Symbol(String),
    Pair(Box<Sexp>, Box<Sexp>),
}

/// The mathematical value of a [`Sexp`].
pub enum Term {
    Nil,
    Integer(i64),
    Symbol(Seq<char>),
    Pair(Box<Term>, Box<Term>),
}

/// The term that `e` stands for.
pub open spec fn term_of(e: Sexp) -> Term
    decreases e,
{
    match e {
        Sexp::Nil => Term::Nil,
        Sexp::Integer(n) => Term::Integer(n),
        Sexp::Symbol(s) => Term::Symbol(s@),
        Sexp::Pair(car, cdr) => Term::Pair(Box::new(term_of(*car)), Box::new(term_of(*cdr))),
    }
}

/// The terms that a sequence of expressions stands for.
pub open spec fn terms_of(es: Seq<Sexp>) -> Seq<Term> {
    Seq::new(es.len(), |i: int| term_of(es[i]))
}

impl View for Sexp {
    type V = Term;

    open spec fn view(&self) -> Term {
        term_of(*self)
    }
}

impl Sexp {
    /// A copy of this expression.
    pub fn duplicate(&self) -> (copy: Sexp)
        ensures
            term_of(copy) == term_of(*self),
        decreases self,
    {
        match self {
            Sexp::Nil => Sexp::Nil,
            Sexp::Integer(n) => Sexp::Integer(*n),
            Sexp::Symbol(s) => Sexp::Symbol(s.clone()),
            Sexp::Pair(car, cdr) => Sexp::Pair(
                Box::new(car.duplicate()),
                Box::new(cdr.duplicate()),
            ),
        }
    }
}

impl Clone for Sexp {
    fn clone(&self) -> (copy: Self)
        ensures
            term_of(copy) == term_of(*self),
    {
        self.duplicate()
    }
}

/// The elements of the list that starts at `t`: the heads of the pairs that
/// follow each other through their tails. What ends the chain is not looked at.
pub open spec fn elements(t: Term) -> Seq<Term>
    decreases t,
{
    match t {
        Term::Pair(car, cdr) => seq![*car] + elements(*cdr),
        _ => Seq::empty(),
    }
}

} // verus!
