use crate::nodes::binaryop::BinaryOp;
use crate::nodes::value::{Value, ValueV};
use crate::span::{Span, Spanned};
use vstd::prelude::*;

verus! {

broadcast use vstd::std_specs::vec::group_vec_axioms, vstd::seq::group_seq_axioms;

/// An expression node in the AST. Children are spanned so the evaluator can
/// report useful runtime errors. Ownership is strictly tree-shaped.
#[derive(Debug, PartialEq)]
pub enum Expr {
    /// A synthetic placeholder for a construct that failed to parse; it is
    /// only ever produced alongside a recorded parse error and is never valid
    /// at evaluation time.
    Error,
    /// A literal.
    Value(Value),
    /// A variable or function-name reference.
    Local(String),
    /// A let-style binding `var NAME = init; body`, in scope only for `body`.
    Var(String, Box<Spanned<Expr>>, Box<Spanned<Expr>>),
    /// Sequencing: evaluates both, yields the second's value.
    Then(Box<Spanned<Expr>>, Box<Spanned<Expr>>),
    /// An application of a binary operator.
    Binary(Box<Spanned<Expr>>, BinaryOp, Box<Spanned<Expr>>),
    /// A call: the callee expression and the spanned argument list.
    Call(Box<Spanned<Expr>>, Spanned<Vec<Spanned<Expr>>>),
    /// Evaluates and yields the inner value (no non-local control transfer).
    Return(Box<Spanned<Expr>>),
    /// A conditional; the `else` branch is always present, a missing source
    /// `else` having been filled with a synthesized null branch.
    If(Box<Spanned<Expr>>, Box<Spanned<Expr>>, Box<Spanned<Expr>>),
}

/// The mathematical image of an expression tree.
pub enum ExprV {
    Error,
    Value(ValueV),
    Local(Seq<char>),
    Var(Seq<char>, Box<(ExprV, Span)>, Box<(ExprV, Span)>),
    Then(Box<(ExprV, Span)>, Box<(ExprV, Span)>),
    Binary(Box<(ExprV, Span)>, BinaryOp, Box<(ExprV, Span)>),
    Call(Box<(ExprV, Span)>, (Seq<(ExprV, Span)>, Span)),
    Return(Box<(ExprV, Span)>),
    If(Box<(ExprV, Span)>, Box<(ExprV, Span)>, Box<(ExprV, Span)>),
}

/// The image of an expression node.
pub open spec fn expr_view(e: Expr) -> ExprV
    decreases e,
{
    match e {
        Expr::Error => ExprV::Error,
        Expr::Value(v) => ExprV::Value(v@),
        Expr::Local(n) => ExprV::Local(n@),
        Expr::Var(n, init, body) => ExprV::Var(
            n@,
            Box::new(spanned_view(*init)),
            Box::new(spanned_view(*body)),
        ),
        Expr::Then(a, b) => ExprV::Then(Box::new(spanned_view(*a)), Box::new(spanned_view(*b))),
        Expr::Binary(a, op, b) => ExprV::Binary(
            Box::new(spanned_view(*a)),
            op,
            Box::new(spanned_view(*b)),
        ),
        Expr::Call(f, args) => ExprV::Call(
            Box::new(spanned_view(*f)),
            (args_view(args.0@), args.1),
        ),
        Expr::Return(a) => ExprV::Return(Box::new(spanned_view(*a))),
        Expr::If(c, a, b) => ExprV::If(
            Box::new(spanned_view(*c)),
            Box::new(spanned_view(*a)),
            Box::new(spanned_view(*b)),
        ),
    }
}

/// The image of a spanned expression node.
pub open spec fn spanned_view(e: Spanned<Expr>) -> (ExprV, Span)
    decreases e,
{
    (expr_view(e.0), e.1)
}

/// The image of an argument list.
pub open spec fn args_view(args: Seq<Spanned<Expr>>) -> Seq<(ExprV, Span)>
    decreases args,
{
    if args.len() == 0 {
        Seq::empty()
    } else {
        args_view(args.drop_last()).push(spanned_view(args.last()))
    }
}

/// `args_view` maps the sequence pointwise.
pub proof fn lemma_args_view(args: Seq<Spanned<Expr>>)
    ensures
        args_view(args).len() == args.len(),
        forall|i: int|
            0 <= i < args.len() ==> #[trigger] args_view(args)[i] == spanned_view(args[i]),
    decreases args.len(),
{
    if args.len() > 0 {
        lemma_args_view(args.drop_last());
    }
}

} // verus!
