use crate::span::Span;
use vstd::prelude::*;

verus! {

/// The token alphabet. Keywords are lexically indistinguishable from
/// identifiers until the lexer's final classification step maps the reserved
/// spellings to their keyword variant. Comments are retained for the
/// highlighting path and filtered out before parsing.
#[derive(Clone, Debug, PartialEq)]
pub enum Token {
    /// A name: `[A-Za-z_][A-Za-z0-9_]*`, not one of the keywords.
    Ident(String),
    /// An integer literal, kept as its literal text; conversion to the
    /// runtime numeric type is deferred to AST construction.
    Num(String),
    /// An operator symbol such as `+` or `==`.
    Op(String),
    /// One of the control characters `(){}[];,:`.
    Ctrl(char),
    /// The keyword `fn`.
    Fn,
    /// The keyword `var`.
    Var,
    /// The keyword `if`.
    If,
    /// The keyword `else`.
    Else,
    /// The keyword `return`.
    Return,
    /// A line comment, `//` through the end of the line.
    Comment(String),
}

/// The mathematical image of a token: every text payload as a sequence of
/// characters.
pub enum TokenV {
    Ident(Seq<char>),
    Num(Seq<char>),
    Op(Seq<char>),
    Ctrl(char),
    Fn,
    Var,
    If,
    Else,
    Return,
    Comment(Seq<char>),
}

impl View for Token {
    type V = TokenV;

    open spec fn view(&self) -> TokenV {
        match self {
            Token::Ident(s) => TokenV::Ident(s@),
            Token::Num(s) => TokenV::Num(s@),
            Token::Op(s) => TokenV::Op(s@),
            Token::Ctrl(c) => TokenV::Ctrl(*c),
            Token::Fn => TokenV::Fn,
            Token::Var => TokenV::Var,
            Token::If => TokenV::If,
            Token::Else => TokenV::Else,
            Token::Return => TokenV::Return,
            Token::Comment(s) => TokenV::Comment(s@),
        }
    }
}

/// Whether `t` is the control token for the character `c`.
pub open spec fn spec_is_ctrl(t: Token, c: char) -> bool {
    match t {
        Token::Ctrl(d) => d == c,
        _ => false,
    }
}

/// Whether `t` is the operator token whose symbol reads `s`.
pub open spec fn spec_is_op(t: Token, s: Seq<char>) -> bool {
    match t {
        Token::Op(x) => x@ == s,
        _ => false,
    }
}

impl Token {
    /// Test against a control character.
    pub fn is_ctrl(&self, c: char) -> (r: bool)
        ensures
            r == spec_is_ctrl(*self, c),
    {
        match self {
            Token::Ctrl(d) => *d == c,
            _ => false,
        }
    }

    /// Test against an operator symbol.
    pub fn is_op(&self, s: &str) -> (r: bool)
        ensures
            r == spec_is_op(*self, s@),
    {
        match self {
            Token::Op(x) => *x == s.to_owned(),
            _ => false,
        }
    }
}


/// The token sequence with comments removed: comments are retained by the
/// lexer for the highlighting path and filtered out before parsing.
pub open spec fn spec_strip_comments(ts: Seq<(Token, Span)>) -> Seq<(Token, Span)>
    decreases ts.len(),
{
    if ts.len() == 0 {
        Seq::empty()
    } else if ts[0].0 is Comment {
        spec_strip_comments(ts.drop_first())
    } else {
        seq![ts[0]] + spec_strip_comments(ts.drop_first())
    }
}

/// Removes the comment tokens, keeping every other token in order.
pub fn strip_comments(ts: Vec<(Token, Span)>) -> (r: Vec<(Token, Span)>)
    ensures
        r@ == spec_strip_comments(ts@),
{
    let ghost orig = ts@;
    let mut ts = ts;
    let mut out: Vec<(Token, Span)> = Vec::new();
    proof {
        assert(out@ + spec_strip_comments(ts@) =~= spec_strip_comments(ts@));
    }
    while ts.len() > 0
        invariant
            spec_strip_comments(orig) == out@ + spec_strip_comments(ts@),
        decreases ts@.len(),
    {
        let ghost pre = ts@;
        let (t, sp2) = ts.remove(0);
        proof {
            assert(ts@ =~= pre.drop_first());
        }
        if !matches!(t, Token::Comment(_)) {
            let ghost out0 = out@;
            out.push((t, sp2));
            proof {
                assert(out0 + (seq![(t, sp2)] + spec_strip_comments(pre.drop_first())) =~= (out0
                    + seq![(t, sp2)]) + spec_strip_comments(pre.drop_first()));
                assert(out0 + seq![(t, sp2)] =~= out@);
            }
        }
    }
    proof {
        assert(spec_strip_comments(ts@) =~= Seq::<(Token, Span)>::empty());
        assert(out@ + Seq::<(Token, Span)>::empty() =~= out@);
    }
    out
}

} // verus!
