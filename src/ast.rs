use vstd::prelude::*;

verus! {

/// A literal constant as it stands in the tree.
#[derive(Debug)]
pub enum LiteralValue {
    Boolean(bool),
    Integer(i32),
    String(String),
}

/// An expression tree; multi-argument calls are chains of binary applications.
#[derive(Debug)]
pub enum Expr {
    Literal(LiteralValue),
    Identifier(String),
    AssignmentExpr(String, Box<Expr>),
    FunctionApplication(Box<Expr>, Box<Expr>),
    Block(Vec<Expr>),
}

/// The mathematical value of a literal.
pub enum Lit {
    Boolean(bool),
    Integer(int),
    Text(Seq<char>),
}

/// The mathematical value of an expression tree.
pub enum Term {
    Literal(Lit),
    Identifier(Seq<char>),
    Assignment(Seq<char>, Box<Term>),
    Application(Box<Term>, Box<Term>),
    Block(Seq<Term>),
}

impl View for LiteralValue {
    type V = Lit;

    open spec fn view(&self) -> Lit {
        match self {
            LiteralValue::Boolean(b) => Lit::Boolean(*b),
            LiteralValue::Integer(n) => Lit::Integer(*n as int),
            LiteralValue::String(t) => Lit::Text(t@),
        }
    }
}

/// The views of a sequence of expressions, in order.
pub open spec fn terms_of(es: Seq<Expr>) -> Seq<Term>
    decreases es,
{
    if es.len() == 0 {
        Seq::empty()
    } else {
        seq![es[0].view()] + terms_of(es.subrange(1, es.len() as int))
    }
}

impl View for Expr {
    type V = Term;

    open spec fn view(&self) -> Term
        decreases self,
    {
        match self {
            Expr::Literal(l) => Term::Literal(l@),
            Expr::Identifier(n) => Term::Identifier(n@),
            Expr::AssignmentExpr(n, v) => Term::Assignment(n@, Box::new((**v).view())),
            Expr::FunctionApplication(f, a) => Term::Application(
                Box::new((**f).view()),
                Box::new((**a).view()),
            ),
            Expr::Block(es) => Term::Block(terms_of(es@)),
        }
    }
}

} // verus!
