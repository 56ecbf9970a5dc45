use vstd::prelude::*;

verus! {

/// The binary operators, lowest precedence first: logical or/and, equality,
/// relational, additive, multiplicative.
#[derive(Clone, Copy, Debug, PartialEq, Eq, Structural)]
pub enum BinaryOp {
    /// `||`
    Or,
    /// `&&`
    And,
    /// `==`
    Eq,
    /// `!=`
    Neq,
    /// `>=`
    Geq,
    /// `<=`
    Leq,
    /// `>`
    Gt,
    /// `<`
    Lt,
    /// `+`
    Add,
    /// `-`
    Sub,
    /// `*`
    Mul,
    /// `/`
    Div,
    /// `%`
    Mod,
}

} // verus!
