use crate::nodes::binaryop::BinaryOp;
use crate::nodes::expr::{spanned_view, Expr, ExprV};
use crate::nodes::value::{Value, ValueV};
use crate::parsers::{err_unexpected, errs_view, lemma_errs_assoc, push_unexpected};
use crate::span::{Span, Spanned};
use crate::tokens::{spec_is_ctrl, spec_is_op, Token};
use crate::Error;
use vstd::prelude::*;

verus! {

broadcast use vstd::std_specs::vec::group_vec_axioms, vstd::seq::group_seq_axioms;

// ---------------------------------------------------------------------------
// Token lookahead
// ---------------------------------------------------------------------------
/// Whether the token at `i` is the control character `c`.
pub open spec fn at_ctrl(ts: Seq<(Token, Span)>, i: int, c: char) -> bool {
    0 <= i < ts.len() && spec_is_ctrl(ts[i].0, c)
}

/// Whether the token at `i` is the operator spelled `s`.
pub open spec fn at_op(ts: Seq<(Token, Span)>, i: int, s: Seq<char>) -> bool {
    0 <= i < ts.len() && spec_is_op(ts[i].0, s)
}

/// Whether the token at `i` is the keyword `if`.
pub open spec fn at_if_kw(ts: Seq<(Token, Span)>, i: int) -> bool {
    0 <= i < ts.len() && ts[i].0 is If
}

/// Whether the token at `i` is the keyword `else`.
pub open spec fn at_else_kw(ts: Seq<(Token, Span)>, i: int) -> bool {
    0 <= i < ts.len() && ts[i].0 is Else
}

/// Whether the token at `i` is an identifier.
pub open spec fn at_ident(ts: Seq<(Token, Span)>, i: int) -> bool {
    0 <= i < ts.len() && ts[i].0 is Ident
}

/// The identifier text at `i` (meaningful only when `at_ident` holds).
pub open spec fn ident_at(ts: Seq<(Token, Span)>, i: int) -> Seq<char> {
    match ts[i].0 {
        Token::Ident(n) => n@,
        _ => Seq::empty(),
    }
}

/// A successful sub-parse always consumes at least one token; the resumption
/// point is clamped into `(i, ts.len()]` so the folding loops terminate.
pub open spec fn step(ts: Seq<(Token, Span)>, i: int, j: int) -> int {
    if j <= i {
        i + 1
    } else if j > ts.len() {
        ts.len() as int
    } else {
        j
    }
}

/// The end offset of the last token consumed before position `k`.
pub open spec fn last_end(ts: Seq<(Token, Span)>, k: int) -> usize {
    if 0 < k <= ts.len() {
        ts[k - 1].1.end
    } else {
        0
    }
}

/// The operator parsed at binary-precedence level `l` (0 the loosest), if the
/// token is one of that level's operators.
pub open spec fn level_op(l: nat, t: Token) -> Option<BinaryOp> {
    match t {
        Token::Op(x) => {
            if l == 0 {
                if x@ == "||"@ {
                    Some(BinaryOp::Or)
                } else {
                    None
                }
            } else if l == 1 {
                if x@ == "&&"@ {
                    Some(BinaryOp::And)
                } else {
                    None
                }
            } else if l == 2 {
                if x@ == "=="@ {
                    Some(BinaryOp::Eq)
                } else if x@ == "!="@ {
                    Some(BinaryOp::Neq)
                } else {
                    None
                }
            } else if l == 3 {
                if x@ == "<"@ {
                    Some(BinaryOp::Lt)
                } else if x@ == ">"@ {
                    Some(BinaryOp::Gt)
                } else if x@ == "<="@ {
                    Some(BinaryOp::Leq)
                } else if x@ == ">="@ {
                    Some(BinaryOp::Geq)
                } else {
                    None
                }
            } else if l == 4 {
                if x@ == "+"@ {
                    Some(BinaryOp::Add)
                } else if x@ == "-"@ {
                    Some(BinaryOp::Sub)
                } else {
                    None
                }
            } else if l == 5 {
                if x@ == "*"@ {
                    Some(BinaryOp::Mul)
                } else if x@ == "/"@ {
                    Some(BinaryOp::Div)
                } else if x@ == "%"@ {
                    Some(BinaryOp::Mod)
                } else {
                    None
                }
            } else {
                None
            }
        },
        _ => None,
    }
}

// ---------------------------------------------------------------------------
// Number literals
// ---------------------------------------------------------------------------
/// Whether every character of `w` is a decimal digit.
pub open spec fn all_digits(w: Seq<char>) -> bool {
    forall|k: int| 0 <= k < w.len() ==> crate::lexer::is_digit_char(#[trigger] w[k])
}

/// The numeric value of a digit string.
pub open spec fn digits_val(w: Seq<char>) -> int
    decreases w.len(),
{
    if w.len() == 0 {
        0
    } else {
        digits_val(w.drop_last()) * 10 + (w.last() as u32) - 48
    }
}

/// The 32-bit value of a number literal's text: defined when the text is a
/// non-empty digit string whose value fits.
pub open spec fn word_to_i32(w: Seq<char>) -> Option<i32> {
    if w.len() > 0 && all_digits(w) && digits_val(w) <= i32::MAX as int {
        Some(digits_val(w) as i32)
    } else {
        None
    }
}

// ---------------------------------------------------------------------------
// Parse results
// ---------------------------------------------------------------------------
/// A specification-level parse outcome for one expression: on success the
/// parsed node and the next token position, and in either case the
/// diagnostics recorded, in order.
pub struct PE {
    pub res: Option<((ExprV, Span), int)>,
    pub errs: Seq<(Span, Seq<char>)>,
}

/// A specification-level parse outcome for a call's argument list: the
/// arguments, the closing parenthesis's span, and the next position.
pub struct PA {
    pub res: Option<(Seq<(ExprV, Span)>, Span, int)>,
    pub errs: Seq<(Span, Seq<char>)>,
}

/// The precedence rank used by the termination measure of the binary levels.
pub open spec fn rank_binary(l: nat) -> int {
    if l <= 6 {
        16 - l
    } else {
        10
    }
}

// ---------------------------------------------------------------------------
// The specification parser
//
// A mutually recursive descent over the token sequence, mirroring the
// grammar: statements chained by `;`, block expressions chained by
// adjacency, six left-associative binary-operator levels, call argument
// lists, and atoms, with delimiter-scanning recovery that substitutes an
// `ExprV::Error` node for a malformed bracketed construct.
// ---------------------------------------------------------------------------
/// Scans forward over nested delimiters; `stack` holds the closing characters
/// still owed, innermost last. Returns the position just after the close that
/// matches the first entry, or `None` on a mismatched close or exhausted
/// input.
pub open spec fn spec_scan(ts: Seq<(Token, Span)>, i: int, stack: Seq<char>) -> Option<int>
    decreases ts.len() - i,
{
    if !(0 <= i < ts.len()) {
        None
    } else {
        match ts[i].0 {
            Token::Ctrl(c) => if c == '(' {
                spec_scan(ts, i + 1, stack.push(')'))
            } else if c == '[' {
                spec_scan(ts, i + 1, stack.push(']'))
            } else if c == '{' {
                spec_scan(ts, i + 1, stack.push('}'))
            } else if c == ')' || c == ']' || c == '}' {
                if stack.len() > 0 && stack.last() == c {
                    if stack.len() == 1 {
                        Some(i + 1)
                    } else {
                        spec_scan(ts, i + 1, stack.drop_last())
                    }
                } else {
                    None
                }
            } else {
                spec_scan(ts, i + 1, stack)
            },
            _ => spec_scan(ts, i + 1, stack),
        }
    }
}

/// Delimiter recovery at an opener: scan to the matching close and substitute
/// an `Error` node spanning the consumed input, or fail with an
/// unclosed-delimiter diagnostic.
pub open spec fn spec_recover(
    ts: Seq<(Token, Span)>,
    opener: int,
    close: char,
    errs_in: Seq<(Span, Seq<char>)>,
) -> PE {
    match spec_scan(ts, opener + 1, seq![close]) {
        Some(end) => PE {
            res: Some(
                ((ExprV::Error, Span { start: ts[opener].1.start, end: last_end(ts, end) }), end),
            ),
            errs: errs_in,
        },
        None => PE { res: None, errs: errs_in + seq![(ts[opener].1, "unclosed delimiter"@)] },
    }
}

/// A whole expression: a chain of block expressions or a binary expression,
/// followed by `;`-chained continuations.
pub open spec fn spec_parse_expr(ts: Seq<(Token, Span)>, eoi: Span, i: int) -> PE
    decreases ts.len() - i, 20int,
{
    if at_ctrl(ts, i, '{') || at_if_kw(ts, i) {
        let a = spec_block_chain(ts, eoi, i);
        match a.res {
            None => a,
            Some((n, j)) => if 0 <= i < ts.len() {
                let r = spec_expr_more(ts, eoi, n, step(ts, i, j));
                PE { res: r.res, errs: a.errs + r.errs }
            } else {
                a
            },
        }
    } else {
        let a = spec_binary(ts, eoi, i, 0);
        match a.res {
            None => a,
            Some((n, j)) => if 0 <= i < ts.len() {
                let r = spec_expr_more(ts, eoi, n, step(ts, i, j));
                PE { res: r.res, errs: a.errs + r.errs }
            } else {
                a
            },
        }
    }
}

/// The `;`-chaining loop: each `;` may be followed by a further expression
/// (folded into `Then`) or by nothing (a dangling `;` is tolerated, and a
/// failed attempt is abandoned without diagnostics).
pub open spec fn spec_expr_more(
    ts: Seq<(Token, Span)>,
    eoi: Span,
    left: (ExprV, Span),
    i: int,
) -> PE
    decreases ts.len() - i, 21int,
{
    if at_ctrl(ts, i, ';') {
        let a = spec_parse_expr(ts, eoi, i + 1);
        match a.res {
            Some((b, k)) => {
                let node = (
                    ExprV::Then(Box::new(left), Box::new(b)),
                    Span { start: left.1.start, end: b.1.end },
                );
                let r = spec_expr_more(ts, eoi, node, step(ts, i, k));
                PE { res: r.res, errs: a.errs + r.errs }
            },
            None => spec_expr_more(ts, eoi, left, i + 1),
        }
    } else {
        PE { res: Some((left, i)), errs: Seq::empty() }
    }
}

/// A chain of adjacent block expressions, folded into `Then` nodes.
pub open spec fn spec_block_chain(ts: Seq<(Token, Span)>, eoi: Span, i: int) -> PE
    decreases ts.len() - i, 19int,
{
    let a = spec_block_expr(ts, eoi, i);
    match a.res {
        None => a,
        Some((n, j)) => if 0 <= i < ts.len() {
            let r = spec_chain_more(ts, eoi, n, step(ts, i, j));
            PE { res: r.res, errs: a.errs + r.errs }
        } else {
            a
        },
    }
}

/// The adjacency loop of `spec_block_chain`: a failed attempt is abandoned.
pub open spec fn spec_chain_more(
    ts: Seq<(Token, Span)>,
    eoi: Span,
    left: (ExprV, Span),
    i: int,
) -> PE
    decreases ts.len() - i, 19int,
{
    if at_ctrl(ts, i, '{') || at_if_kw(ts, i) {
        let b = spec_block_expr(ts, eoi, i);
        match b.res {
            None => PE { res: Some((left, i)), errs: Seq::empty() },
            Some((n2, j)) => {
                let node = (
                    ExprV::Then(Box::new(left), Box::new(n2)),
                    Span { start: left.1.start, end: n2.1.end },
                );
                let r = spec_chain_more(ts, eoi, node, step(ts, i, j));
                PE { res: r.res, errs: b.errs + r.errs }
            },
        }
    } else {
        PE { res: Some((left, i)), errs: Seq::empty() }
    }
}

/// A block expression: a brace block or an `if`.
pub open spec fn spec_block_expr(ts: Seq<(Token, Span)>, eoi: Span, i: int) -> PE
    decreases ts.len() - i, 18int,
{
    if at_ctrl(ts, i, '{') {
        spec_block(ts, eoi, i)
    } else if at_if_kw(ts, i) {
        spec_if(ts, eoi, i)
    } else {
        PE { res: None, errs: seq![err_unexpected(ts, eoi, i)] }
    }
}

/// A brace block `{ expr }`; the inner expression keeps its own span. A
/// malformed block is recovered by delimiter scanning.
pub open spec fn spec_block(ts: Seq<(Token, Span)>, eoi: Span, i: int) -> PE
    decreases ts.len() - i, 17int,
{
    if !at_ctrl(ts, i, '{') {
        PE { res: None, errs: seq![err_unexpected(ts, eoi, i)] }
    } else {
        let a = spec_parse_expr(ts, eoi, i + 1);
        match a.res {
            Some((node, j)) => if at_ctrl(ts, j, '}') {
                PE { res: Some((node, j + 1)), errs: a.errs }
            } else {
                spec_recover(ts, i, '}', a.errs + seq![err_unexpected(ts, eoi, j)])
            },
            None => spec_recover(ts, i, '}', a.errs),
        }
    }
}

/// An `if cond block (else (block | if))?` construct; a missing `else` is
/// filled with a synthesized null branch spanning the whole `if`.
pub open spec fn spec_if(ts: Seq<(Token, Span)>, eoi: Span, i: int) -> PE
    decreases ts.len() - i, 17int,
{
    if !at_if_kw(ts, i) {
        PE { res: None, errs: seq![err_unexpected(ts, eoi, i)] }
    } else {
        let c = spec_parse_expr(ts, eoi, i + 1);
        match c.res {
            None => PE { res: None, errs: c.errs },
            Some((cond, j)) => {
                let jb = step(ts, i, j);
                let b = spec_block(ts, eoi, jb);
                match b.res {
                    None => PE { res: None, errs: c.errs + b.errs },
                    Some((branch_t, k)) => {
                        let k2 = step(ts, jb, k);
                        if at_else_kw(ts, k2) {
                            let e = if at_if_kw(ts, k2 + 1) {
                                spec_if(ts, eoi, k2 + 1)
                            } else {
                                spec_block(ts, eoi, k2 + 1)
                            };
                            match e.res {
                                None => PE { res: None, errs: c.errs + b.errs + e.errs },
                                Some((branch_f, m)) => {
                                    let span = Span {
                                        start: ts[i].1.start,
                                        end: last_end(ts, m),
                                    };
                                    PE {
                                        res: Some(
                                            (
                                                (
                                                    ExprV::If(
                                                        Box::new(cond),
                                                        Box::new(branch_t),
                                                        Box::new(branch_f),
                                                    ),
                                                    span,
                                                ),
                                                m,
                                            ),
                                        ),
                                        errs: c.errs + b.errs + e.errs,
                                    }
                                },
                            }
                        } else {
                            let span = Span { start: ts[i].1.start, end: last_end(ts, k2) };
                            PE {
                                res: Some(
                                    (
                                        (
                                            ExprV::If(
                                                Box::new(cond),
                                                Box::new(branch_t),
                                                Box::new((ExprV::Value(ValueV::Null), span)),
                                            ),
                                            span,
                                        ),
                                        k2,
                                    ),
                                ),
                                errs: c.errs + b.errs,
                            }
                        }
                    },
                }
            },
        }
    }
}

/// A binary-operator level: the next-tighter level folded left-associatively
/// against repeated `(operator, operand)` pairs.
pub open spec fn spec_binary(ts: Seq<(Token, Span)>, eoi: Span, i: int, l: nat) -> PE
    decreases ts.len() - i, rank_binary(l),
{
    if l >= 6 {
        spec_call(ts, eoi, i)
    } else {
        let a = spec_binary(ts, eoi, i, l + 1);
        match a.res {
            None => a,
            Some((n, j)) => if 0 <= i < ts.len() {
                let r = spec_binary_more(ts, eoi, n, step(ts, i, j), l);
                PE { res: r.res, errs: a.errs + r.errs }
            } else {
                a
            },
        }
    }
}

/// The folding loop of one binary level; a failed right operand abandons the
/// pair, leaving the fold so far.
pub open spec fn spec_binary_more(
    ts: Seq<(Token, Span)>,
    eoi: Span,
    left: (ExprV, Span),
    i: int,
    l: nat,
) -> PE
    decreases ts.len() - i, rank_binary(l),
{
    if 0 <= i < ts.len() && level_op(l, ts[i].0) is Some {
        let op = level_op(l, ts[i].0)->0;
        let b = spec_binary(ts, eoi, i + 1, (l + 1) as nat);
        match b.res {
            None => PE { res: Some((left, i)), errs: Seq::empty() },
            Some((rhs, k)) => {
                let node = (
                    ExprV::Binary(Box::new(left), op, Box::new(rhs)),
                    Span { start: left.1.start, end: rhs.1.end },
                );
                let r = spec_binary_more(ts, eoi, node, step(ts, i, k), l);
                PE { res: r.res, errs: b.errs + r.errs }
            },
        }
    } else {
        PE { res: Some((left, i)), errs: Seq::empty() }
    }
}

/// Call precedence: an atom followed by zero or more parenthesized argument
/// lists, folded left so `f(a)(b)` is `Call(Call(f,[a]),[b])`.
pub open spec fn spec_call(ts: Seq<(Token, Span)>, eoi: Span, i: int) -> PE
    decreases ts.len() - i, 9int,
{
    let a = spec_atom(ts, eoi, i);
    match a.res {
        None => a,
        Some((n, j)) => if 0 <= i < ts.len() {
            let r = spec_call_more(ts, eoi, n, step(ts, i, j));
            PE { res: r.res, errs: a.errs + r.errs }
        } else {
            a
        },
    }
}

/// The argument-list loop of `spec_call`; a failed list is abandoned.
pub open spec fn spec_call_more(
    ts: Seq<(Token, Span)>,
    eoi: Span,
    left: (ExprV, Span),
    i: int,
) -> PE
    decreases ts.len() - i, 9int,
{
    if at_ctrl(ts, i, '(') {
        let a = spec_args(ts, eoi, i + 1);
        match a.res {
            None => PE { res: Some((left, i)), errs: Seq::empty() },
            Some((args, close, m)) => {
                let gspan = Span { start: ts[i].1.start, end: close.end };
                let node = (
                    ExprV::Call(Box::new(left), (args, gspan)),
                    Span { start: left.1.start, end: gspan.end },
                );
                let r = spec_call_more(ts, eoi, node, step(ts, i, m));
                PE { res: r.res, errs: a.errs + r.errs }
            },
        }
    } else {
        PE { res: Some((left, i)), errs: Seq::empty() }
    }
}

/// A comma-separated argument list up to the closing parenthesis; an optional
/// trailing comma is allowed.
pub open spec fn spec_args(ts: Seq<(Token, Span)>, eoi: Span, i: int) -> PA
    decreases ts.len() - i, 23int,
{
    if at_ctrl(ts, i, ')') {
        PA { res: Some((Seq::empty(), ts[i].1, i + 1)), errs: Seq::empty() }
    } else {
        let a = spec_parse_expr(ts, eoi, i);
        match a.res {
            None => PA { res: None, errs: a.errs },
            Some((e1, j)) => if 0 <= i < ts.len() {
                let r = spec_args_more(ts, eoi, seq![e1], step(ts, i, j));
                PA { res: r.res, errs: a.errs + r.errs }
            } else {
                PA { res: None, errs: a.errs }
            },
        }
    }
}

/// The comma loop of `spec_args`.
pub open spec fn spec_args_more(
    ts: Seq<(Token, Span)>,
    eoi: Span,
    acc: Seq<(ExprV, Span)>,
    i: int,
) -> PA
    decreases ts.len() - i, 22int,
{
    if at_ctrl(ts, i, ',') {
        if at_ctrl(ts, i + 1, ')') {
            PA { res: Some((acc, ts[i + 1].1, i + 2)), errs: Seq::empty() }
        } else {
            let a = spec_parse_expr(ts, eoi, i + 1);
            match a.res {
                None => PA { res: None, errs: a.errs },
                Some((e2, k)) => {
                    let r = spec_args_more(ts, eoi, acc.push(e2), step(ts, i, k));
                    PA { res: r.res, errs: a.errs + r.errs }
                },
            }
        }
    } else if at_ctrl(ts, i, ')') {
        PA { res: Some((acc, ts[i].1, i + 1)), errs: Seq::empty() }
    } else {
        PA { res: None, errs: seq![err_unexpected(ts, eoi, i)] }
    }
}

/// An atom: a literal, an identifier reference, a `var` binding, a `return`,
/// or a parenthesized sub-expression, with delimiter recovery for malformed
/// parenthesized and bracketed groups.
pub open spec fn spec_atom(ts: Seq<(Token, Span)>, eoi: Span, i: int) -> PE
    decreases ts.len() - i, 8int,
{
    if !(0 <= i < ts.len()) {
        PE { res: None, errs: seq![err_unexpected(ts, eoi, i)] }
    } else {
        match ts[i].0 {
            Token::Num(text) => match word_to_i32(text@) {
                Some(v) => PE {
                    res: Some(((ExprV::Value(ValueV::I32(v)), ts[i].1), i + 1)),
                    errs: Seq::empty(),
                },
                None => PE { res: None, errs: seq![(ts[i].1, "invalid number literal"@)] },
            },
            Token::Ident(name) => PE {
                res: Some(((ExprV::Local(name@), ts[i].1), i + 1)),
                errs: Seq::empty(),
            },
            Token::Var => spec_var(ts, eoi, i),
            Token::Return => {
                let a = spec_parse_expr(ts, eoi, i + 1);
                match a.res {
                    None => PE { res: None, errs: a.errs },
                    Some((inner, k)) => PE {
                        res: Some(
                            (
                                (
                                    ExprV::Return(Box::new(inner)),
                                    Span { start: ts[i].1.start, end: last_end(ts, k) },
                                ),
                                k,
                            ),
                        ),
                        errs: a.errs,
                    },
                }
            },
            Token::Ctrl(c) => if c == '(' {
                spec_paren(ts, eoi, i)
            } else if c == '[' {
                spec_recover(ts, i, ']', seq![err_unexpected(ts, eoi, i)])
            } else {
                PE { res: None, errs: seq![err_unexpected(ts, eoi, i)] }
            },
            _ => PE { res: None, errs: seq![err_unexpected(ts, eoi, i)] },
        }
    }
}

/// A `var NAME = init; body` binding: the initializer is a binary expression,
/// the body a whole expression; the binding is in scope only for the body.
pub open spec fn spec_var(ts: Seq<(Token, Span)>, eoi: Span, i: int) -> PE
    decreases ts.len() - i, 7int,
{
    if !at_ident(ts, i + 1) {
        PE { res: None, errs: seq![err_unexpected(ts, eoi, i + 1)] }
    } else if !at_op(ts, i + 2, "="@) {
        PE { res: None, errs: seq![err_unexpected(ts, eoi, i + 2)] }
    } else {
        let a = spec_binary(ts, eoi, i + 3, 0);
        match a.res {
            None => PE { res: None, errs: a.errs },
            Some((init, j)) => {
                let jm = step(ts, i + 2, j);
                if !at_ctrl(ts, jm, ';') {
                    PE { res: None, errs: a.errs + seq![err_unexpected(ts, eoi, jm)] }
                } else {
                    let b = spec_parse_expr(ts, eoi, jm + 1);
                    match b.res {
                        None => PE { res: None, errs: a.errs + b.errs },
                        Some((body, k)) => PE {
                            res: Some(
                                (
                                    (
                                        ExprV::Var(
                                            ident_at(ts, i + 1),
                                            Box::new(init),
                                            Box::new(body),
                                        ),
                                        Span { start: ts[i].1.start, end: last_end(ts, k) },
                                    ),
                                    k,
                                ),
                            ),
                            errs: a.errs + b.errs,
                        },
                    }
                }
            },
        }
    }
}

/// A parenthesized sub-expression, which keeps the inner expression's own
/// span; a malformed group is recovered by delimiter scanning.
pub open spec fn spec_paren(ts: Seq<(Token, Span)>, eoi: Span, i: int) -> PE
    decreases ts.len() - i, 7int,
{
    if !at_ctrl(ts, i, '(') {
        PE { res: None, errs: seq![err_unexpected(ts, eoi, i)] }
    } else {
        let a = spec_parse_expr(ts, eoi, i + 1);
        match a.res {
            Some((node, j)) => if at_ctrl(ts, j, ')') {
                PE { res: Some((node, j + 1)), errs: a.errs }
            } else {
                spec_recover(ts, i, ')', a.errs + seq![err_unexpected(ts, eoi, j)])
            },
            None => spec_recover(ts, i, ')', a.errs),
        }
    }
}


// ---------------------------------------------------------------------------
// The executable parser
//
// Each function mirrors its specification counterpart branch for branch and
// is proved to return exactly its outcome, appending exactly its diagnostics.
// ---------------------------------------------------------------------------
/// How an executable parse result relates to a specification outcome: the
/// node images and next positions agree, and the diagnostics grew by exactly
/// the outcome's list.
pub open spec fn pe_matches(
    s: PE,
    r: Option<(Spanned<Expr>, usize)>,
    errs0: Seq<Error>,
    errs1: Seq<Error>,
) -> bool {
    &&& errs_view(errs1) == errs_view(errs0) + s.errs
    &&& match (r, s.res) {
        (Some(p), Some(q)) => spanned_view(p.0) == q.0 && p.1 as int == q.1,
        (None, None) => true,
        _ => false,
    }
}

/// The analogue of `pe_matches` for argument lists.
pub open spec fn pa_matches(
    s: PA,
    r: Option<(Vec<Spanned<Expr>>, Span, usize)>,
    errs0: Seq<Error>,
    errs1: Seq<Error>,
) -> bool {
    &&& errs_view(errs1) == errs_view(errs0) + s.errs
    &&& match (r, s.res) {
        (Some(p), Some(q)) => crate::nodes::expr::args_view(p.0@) == q.0 && p.1 == q.1 && p.2
            as int == q.2,
        (None, None) => true,
        _ => false,
    }
}

/// `errs_view` distributes over concatenation.
proof fn lemma_ev_cat(a: Seq<Error>, b: Seq<Error>)
    ensures
        errs_view(a + b) == errs_view(a) + errs_view(b),
{
    assert(errs_view(a + b) =~= errs_view(a) + errs_view(b));
}

/// The image of no diagnostics is empty.
proof fn lemma_ev_empty()
    ensures
        errs_view(Seq::<Error>::empty()) == Seq::<(Span, Seq<char>)>::empty(),
{
    assert(errs_view(Seq::<Error>::empty()) =~= Seq::<(Span, Seq<char>)>::empty());
}

/// Concatenation units.
proof fn lemma_cat_unit<T>(x: Seq<T>)
    ensures
        Seq::<T>::empty() + x == x,
        x + Seq::<T>::empty() == x,
{
    assert(Seq::<T>::empty() + x =~= x);
    assert(x + Seq::<T>::empty() =~= x);
}

/// The argument-image sequence extends pointwise under `push`.
proof fn lemma_args_view_push(args: Seq<Spanned<Expr>>, e: Spanned<Expr>)
    ensures
        crate::nodes::expr::args_view(args.push(e)) == crate::nodes::expr::args_view(args).push(
            spanned_view(e),
        ),
{
    let l = crate::nodes::expr::args_view(args.push(e));
    assert(args.push(e).drop_last() =~= args);
    assert(args.push(e).last() == e);
}

/// The executable progress guard (see `step`).
pub(crate) fn step_x(ts: &Vec<(Token, Span)>, i: usize, j: usize) -> (r: usize)
    requires
        i < ts@.len(),
    ensures
        r as int == step(ts@, i as int, j as int),
        i < r <= ts@.len(),
{
    let n = ts.len();
    if j <= i {
        i + 1
    } else if j > n {
        n
    } else {
        j
    }
}

/// The end offset of the last token consumed before position `k`; the
/// executable form of `last_end`.
fn last_end_x(ts: &Vec<(Token, Span)>, k: usize) -> (r: usize)
    ensures
        r == last_end(ts@, k as int),
{
    if 0 < k && k <= ts.len() {
        ts[k - 1].1.end
    } else {
        0
    }
}

/// Scans forward over nested delimiters from the position after an opener
/// whose matching close is `close`; the executable form of `spec_scan`.
fn scan_x(ts: &Vec<(Token, Span)>, i: usize, close: char) -> (r: Option<usize>)
    ensures
        match spec_scan(ts@, i as int, seq![close]) {
            Some(e) => r matches Some(x) && x as int == e && i < x <= ts@.len(),
            None => r is None,
        },
{
    let mut stack: Vec<char> = Vec::new();
    stack.push(close);
    let mut j = i;
    proof {
        assert(stack@ =~= seq![close]);
    }
    loop
        invariant
            i <= j,
            stack@.len() >= 1,
            spec_scan(ts@, i as int, seq![close]) == spec_scan(ts@, j as int, stack@),
        decreases ts@.len() - j,
    {
        if j >= ts.len() {
            return None;
        }
        match &ts[j].0 {
            Token::Ctrl(c) => {
                let cc = *c;
                if cc == '(' {
                    stack.push(')');
                } else if cc == '[' {
                    stack.push(']');
                } else if cc == '{' {
                    stack.push('}');
                } else if cc == ')' || cc == ']' || cc == '}' {
                    let top = stack[stack.len() - 1];
                    if top == cc {
                        if stack.len() == 1 {
                            return Some(j + 1);
                        } else {
                            stack.pop();
                        }
                    } else {
                        return None;
                    }
                }
            },
            _ => {},
        }
        j = j + 1;
    }
}

/// Delimiter recovery at `opener`: the executable form of `spec_recover` with
/// no diagnostics carried in.
fn recover_x(
    ts: &Vec<(Token, Span)>,
    opener: usize,
    close: char,
    errs: &mut Vec<Error>,
) -> (r: Option<(Spanned<Expr>, usize)>)
    requires
        opener < ts@.len(),
    ensures
        pe_matches(
            spec_recover(ts@, opener as int, close, Seq::empty()),
            r,
            old(errs)@,
            final(errs)@,
        ),
{
    proof {
        lemma_ev_empty();
        lemma_cat_unit::<(Span, Seq<char>)>(seq![(ts@[opener as int].1, "unclosed delimiter"@)]);
        lemma_cat_unit::<(Span, Seq<char>)>(Seq::empty());
    }
    let n = ts.len();
    match scan_x(ts, opener + 1, close) {
        Some(end) => {
            let span = Span { start: ts[opener].1.start, end: ts[end - 1].1.end };
            proof {
                assert(errs_view(errs@) =~= errs_view(errs@) + Seq::<(Span, Seq<char>)>::empty());
            }
            Some(((Expr::Error, span), end))
        },
        None => {
            let ghost errs0 = errs@;
            errs.push(Error { span: ts[opener].1, msg: "unclosed delimiter".to_owned() });
            proof {
                assert(errs_view(errs@) =~= errs_view(errs0) + (Seq::empty() + seq![
                    (ts@[opener as int].1, "unclosed delimiter"@),
                ]));
            }
            None
        },
    }
}

/// The 32-bit value of a number literal's text; the executable form of
/// `word_to_i32`.
fn num_value(text: &String) -> (r: Option<i32>)
    ensures
        r == word_to_i32(text@),
{
    let w = crate::lexer::chars_vec(text.as_str());
    let n = w.len();
    if n == 0 {
        return None;
    }
    let mut acc: i32 = 0;
    let mut k: usize = 0;
    while k < n
        invariant
            w@ == text@,
            n == w@.len(),
            k <= n,
            all_digits(w@.subrange(0, k as int)),
            0 <= acc,
            acc as int == digits_val(w@.subrange(0, k as int)),
            acc <= i32::MAX,
        decreases n - k,
    {
        let c = w[k];
        let ghost pre = w@.subrange(0, k as int);
        let ghost cur = w@.subrange(0, k as int + 1);
        proof {
            assert(cur.drop_last() =~= pre);
            assert(cur.last() == w@[k as int]);
        }
        if !crate::lexer::is_digit(c) {
            proof {
                assert(!all_digits(text@)) by {
                    assert(text@[k as int] == c);
                }
            }
            return None;
        }
        proof {
            assert(all_digits(cur)) by {
                assert(forall|q: int|
                    0 <= q < cur.len() ==> #[trigger] cur[q] == if q < k as int {
                        pre[q]
                    } else {
                        w@[k as int]
                    });
            }
        }
        let d = ((c as u32) - 48) as i32;
        let big = match acc.checked_mul(10) {
            Some(x) => match x.checked_add(d) {
                Some(y) => Some(y),
                None => None,
            },
            None => None,
        };
        match big {
            Some(y) => {
                acc = y;
            },
            None => {
                proof {
                    assert(digits_val(cur) > i32::MAX);
                    if all_digits(text@) {
                        lemma_digits_prefix(text@, k as int + 1, text@.len() as int);
                        assert(text@.subrange(0, text@.len() as int) =~= text@);
                    }
                }
                return None;
            },
        }
        k = k + 1;
    }
    proof {
        assert(w@.subrange(0, n as int) =~= text@);
    }
    Some(acc)
}

/// A digit string's value is nonnegative.
proof fn lemma_digits_nonneg(w: Seq<char>)
    requires
        all_digits(w),
    ensures
        digits_val(w) >= 0,
    decreases w.len(),
{
    if w.len() > 0 {
        assert(all_digits(w.drop_last())) by {
            assert(forall|q: int|
                0 <= q < w.len() - 1 ==> #[trigger] w.drop_last()[q] == w[q]);
        }
        lemma_digits_nonneg(w.drop_last());
    }
}

/// Extending a digit string cannot shrink its value.
proof fn lemma_digits_prefix(w: Seq<char>, a: int, b: int)
    requires
        0 <= a <= b <= w.len(),
        all_digits(w),
    ensures
        digits_val(w.subrange(0, a)) <= digits_val(w.subrange(0, b)),
    decreases b - a,
{
    if a < b {
        lemma_digits_prefix(w, a, b - 1);
        let wb = w.subrange(0, b);
        assert(wb.drop_last() =~= w.subrange(0, b - 1));
        assert(all_digits(w.subrange(0, b - 1))) by {
            assert(forall|q: int|
                0 <= q < b - 1 ==> #[trigger] w.subrange(0, b - 1)[q] == w[q]);
        }
        lemma_digits_nonneg(w.subrange(0, b - 1));
        assert(digits_val(wb) == digits_val(wb.drop_last()) * 10 + (wb.last() as u32) - 48);
    }
}

/// Parses one whole expression: the statement level of the grammar, with
/// `;`-chained continuations folded into `Then` nodes.
pub fn expr_parser(
    ts: &Vec<(Token, Span)>,
    eoi: Span,
    i: usize,
    errs: &mut Vec<Error>,
) -> (r: Option<(Spanned<Expr>, usize)>)
    ensures
        pe_matches(spec_parse_expr(ts@, eoi, i as int), r, old(errs)@, final(errs)@),
    decreases ts@.len() - i, 20int,
{
    let blockish = i < ts.len() && (ts[i].0.is_ctrl('{') || matches!(ts[i].0, Token::If));
    let ghost errs0 = errs@;
    let a = if blockish {
        block_chain_x(ts, eoi, i, errs)
    } else {
        binary_x(ts, eoi, i, 0, errs)
    };
    let ghost s_a = if blockish {
        spec_block_chain(ts@, eoi, i as int)
    } else {
        spec_binary(ts@, eoi, i as int, 0)
    };
    match a {
        None => None,
        Some((n, j)) => {
            if i < ts.len() {
                let j2 = step_x(ts, i, j);
                let ghost errs1 = errs@;
                let r = expr_more_x(ts, eoi, n, j2, errs);
                proof {
                    lemma_errs_assoc(
                        errs_view(errs0),
                        s_a.errs,
                        spec_expr_more(ts@, eoi, (s_a.res->0).0, j2 as int).errs,
                    );
                }
                r
            } else {
                Some((n, j))
            }
        },
    }
}

/// The `;`-chaining loop; the executable form of `spec_expr_more`.
fn expr_more_x(
    ts: &Vec<(Token, Span)>,
    eoi: Span,
    left: Spanned<Expr>,
    i: usize,
    errs: &mut Vec<Error>,
) -> (r: Option<(Spanned<Expr>, usize)>)
    ensures
        pe_matches(
            spec_expr_more(ts@, eoi, spanned_view(left), i as int),
            r,
            old(errs)@,
            final(errs)@,
        ),
    decreases ts@.len() - i, 21int,
{
    let ghost errs0 = errs@;
    if i < ts.len() && ts[i].0.is_ctrl(';') {
        let mut sub: Vec<Error> = Vec::new();
        let a = expr_parser(ts, eoi, i + 1, &mut sub);
        let ghost s_a = spec_parse_expr(ts@, eoi, i as int + 1);
        proof {
            lemma_ev_empty();
            lemma_cat_unit::<(Span, Seq<char>)>(s_a.errs);
        }
        match a {
            Some((b, k)) => {
                let span = Span { start: left.1.start, end: b.1.end };
                let node = (Expr::Then(Box::new(left), Box::new(b)), span);
                let ghost subv = sub@;
                errs.append(&mut sub);
                proof {
                    lemma_ev_cat(errs0, subv);
                }
                let j2 = step_x(ts, i, k);
                let r = expr_more_x(ts, eoi, node, j2, errs);
                proof {
                    lemma_errs_assoc(
                        errs_view(errs0),
                        s_a.errs,
                        spec_expr_more(ts@, eoi, spanned_view(node), j2 as int).errs,
                    );
                }
                r
            },
            None => expr_more_x(ts, eoi, left, i + 1, errs),
        }
    } else {
        proof {
            lemma_ev_empty();
            lemma_cat_unit::<(Span, Seq<char>)>(Seq::empty());
            assert(errs_view(errs0) + Seq::<(Span, Seq<char>)>::empty() =~= errs_view(errs0));
        }
        Some((left, i))
    }
}

/// A chain of adjacent block expressions; the executable form of
/// `spec_block_chain`.
fn block_chain_x(
    ts: &Vec<(Token, Span)>,
    eoi: Span,
    i: usize,
    errs: &mut Vec<Error>,
) -> (r: Option<(Spanned<Expr>, usize)>)
    ensures
        pe_matches(spec_block_chain(ts@, eoi, i as int), r, old(errs)@, final(errs)@),
    decreases ts@.len() - i, 19int,
{
    let ghost errs0 = errs@;
    let a = block_expr_x(ts, eoi, i, errs);
    let ghost s_a = spec_block_expr(ts@, eoi, i as int);
    match a {
        None => None,
        Some((n, j)) => {
            if i < ts.len() {
                let j2 = step_x(ts, i, j);
                let r = chain_more_x(ts, eoi, n, j2, errs);
                proof {
                    lemma_errs_assoc(
                        errs_view(errs0),
                        s_a.errs,
                        spec_chain_more(ts@, eoi, (s_a.res->0).0, j2 as int).errs,
                    );
                }
                r
            } else {
                Some((n, j))
            }
        },
    }
}

/// The adjacency loop; the executable form of `spec_chain_more`.
fn chain_more_x(
    ts: &Vec<(Token, Span)>,
    eoi: Span,
    left: Spanned<Expr>,
    i: usize,
    errs: &mut Vec<Error>,
) -> (r: Option<(Spanned<Expr>, usize)>)
    ensures
        pe_matches(
            spec_chain_more(ts@, eoi, spanned_view(left), i as int),
            r,
            old(errs)@,
            final(errs)@,
        ),
    decreases ts@.len() - i, 19int,
{
    let ghost errs0 = errs@;
    if i < ts.len() && (ts[i].0.is_ctrl('{') || matches!(ts[i].0, Token::If)) {
        let mut sub: Vec<Error> = Vec::new();
        let b = block_expr_x(ts, eoi, i, &mut sub);
        let ghost s_b = spec_block_expr(ts@, eoi, i as int);
        proof {
            lemma_ev_empty();
            lemma_cat_unit::<(Span, Seq<char>)>(s_b.errs);
        }
        match b {
            None => {
                proof {
                    assert(errs_view(errs0) + Seq::<(Span, Seq<char>)>::empty() =~= errs_view(
                        errs0,
                    ));
                }
                Some((left, i))
            },
            Some((n2, j)) => {
                let span = Span { start: left.1.start, end: n2.1.end };
                let node = (Expr::Then(Box::new(left), Box::new(n2)), span);
                let ghost subv = sub@;
                errs.append(&mut sub);
                proof {
                    lemma_ev_cat(errs0, subv);
                }
                let j2 = step_x(ts, i, j);
                let r = chain_more_x(ts, eoi, node, j2, errs);
                proof {
                    lemma_errs_assoc(
                        errs_view(errs0),
                        s_b.errs,
                        spec_chain_more(ts@, eoi, spanned_view(node), j2 as int).errs,
                    );
                }
                r
            },
        }
    } else {
        proof {
            assert(errs_view(errs0) + Seq::<(Span, Seq<char>)>::empty() =~= errs_view(errs0));
        }
        Some((left, i))
    }
}

/// A block expression: a brace block or an `if`; the executable form of
/// `spec_block_expr`.
fn block_expr_x(
    ts: &Vec<(Token, Span)>,
    eoi: Span,
    i: usize,
    errs: &mut Vec<Error>,
) -> (r: Option<(Spanned<Expr>, usize)>)
    ensures
        pe_matches(spec_block_expr(ts@, eoi, i as int), r, old(errs)@, final(errs)@),
    decreases ts@.len() - i, 18int,
{
    if i < ts.len() && ts[i].0.is_ctrl('{') {
        block_x(ts, eoi, i, errs)
    } else if i < ts.len() && matches!(ts[i].0, Token::If) {
        if_x(ts, eoi, i, errs)
    } else {
        let ghost errs0 = errs@;
        push_unexpected(ts, eoi, i, errs);
        None
    }
}

/// A brace block `{ expr }` with recovery; the executable form of
/// `spec_block`.
pub(crate) fn block_x(
    ts: &Vec<(Token, Span)>,
    eoi: Span,
    i: usize,
    errs: &mut Vec<Error>,
) -> (r: Option<(Spanned<Expr>, usize)>)
    ensures
        pe_matches(spec_block(ts@, eoi, i as int), r, old(errs)@, final(errs)@),
    decreases ts@.len() - i, 17int,
{
    let ghost errs0 = errs@;
    if !(i < ts.len() && ts[i].0.is_ctrl('{')) {
        push_unexpected(ts, eoi, i, errs);
        return None;
    }
    let a = expr_parser(ts, eoi, i + 1, errs);
    let ghost s_a = spec_parse_expr(ts@, eoi, i as int + 1);
    let ghost mid = errs@;
    match a {
        Some((node, j)) => {
            if j < ts.len() && ts[j].0.is_ctrl('}') {
                Some((node, j + 1))
            } else {
                push_unexpected(ts, eoi, j, errs);
                let ghost mid2 = errs@;
                let r = recover_x(ts, i, '}', errs);
                proof {
                    lemma_recover_errs(
                        ts@,
                        i as int,
                        '}',
                        s_a.errs + seq![err_unexpected(ts@, eoi, j as int)],
                    );
                    lemma_errs_assoc(
                        errs_view(errs0),
                        s_a.errs,
                        seq![err_unexpected(ts@, eoi, j as int)],
                    );
                    lemma_errs_assoc(
                        errs_view(errs0),
                        s_a.errs + seq![err_unexpected(ts@, eoi, j as int)],
                        spec_recover(ts@, i as int, '}', Seq::empty()).errs,
                    );
                }
                r
            }
        },
        None => {
            let r = recover_x(ts, i, '}', errs);
            proof {
                lemma_recover_errs(ts@, i as int, '}', s_a.errs);
                lemma_errs_assoc(
                    errs_view(errs0),
                    s_a.errs,
                    spec_recover(ts@, i as int, '}', Seq::empty()).errs,
                );
            }
            r
        },
    }
}

/// `spec_recover` carries its incoming diagnostics through unchanged, in
/// front of whatever it adds.
proof fn lemma_recover_errs(
    ts: Seq<(Token, Span)>,
    opener: int,
    close: char,
    errs_in: Seq<(Span, Seq<char>)>,
)
    ensures
        spec_recover(ts, opener, close, errs_in).res == spec_recover(
            ts,
            opener,
            close,
            Seq::empty(),
        ).res,
        spec_recover(ts, opener, close, errs_in).errs == errs_in + spec_recover(
            ts,
            opener,
            close,
            Seq::empty(),
        ).errs,
{
    lemma_cat_unit::<(Span, Seq<char>)>(seq![(ts[opener].1, "unclosed delimiter"@)]);
    match spec_scan(ts, opener + 1, seq![close]) {
        Some(end) => {
            assert(errs_in + Seq::<(Span, Seq<char>)>::empty() =~= errs_in);
        },
        None => {
            assert(errs_in + (Seq::empty() + seq![(ts[opener].1, "unclosed delimiter"@)]) =~= errs_in
                + seq![(ts[opener].1, "unclosed delimiter"@)]);
        },
    }
}

/// An `if cond block (else (block | if))?`; the executable form of `spec_if`.
fn if_x(
    ts: &Vec<(Token, Span)>,
    eoi: Span,
    i: usize,
    errs: &mut Vec<Error>,
) -> (r: Option<(Spanned<Expr>, usize)>)
    ensures
        pe_matches(spec_if(ts@, eoi, i as int), r, old(errs)@, final(errs)@),
    decreases ts@.len() - i, 17int,
{
    let ghost errs0 = errs@;
    if !(i < ts.len() && matches!(ts[i].0, Token::If)) {
        push_unexpected(ts, eoi, i, errs);
        return None;
    }
    let c = expr_parser(ts, eoi, i + 1, errs);
    let ghost s_c = spec_parse_expr(ts@, eoi, i as int + 1);
    match c {
        None => None,
        Some((cond, j)) => {
            let jb = step_x(ts, i, j);
            let b = block_x(ts, eoi, jb, errs);
            let ghost s_b = spec_block(ts@, eoi, jb as int);
            proof {
                lemma_errs_assoc(errs_view(errs0), s_c.errs, s_b.errs);
            }
            match b {
                None => None,
                Some((branch_t, k)) => {
                    let k2 = step_x(ts, jb, k);
                    if k2 < ts.len() && matches!(ts[k2].0, Token::Else) {
                        let e = if k2 + 1 < ts.len() && matches!(ts[k2 + 1].0, Token::If) {
                            if_x(ts, eoi, k2 + 1, errs)
                        } else {
                            block_x(ts, eoi, k2 + 1, errs)
                        };
                        let ghost s_e = if at_if_kw(ts@, k2 as int + 1) {
                            spec_if(ts@, eoi, k2 as int + 1)
                        } else {
                            spec_block(ts@, eoi, k2 as int + 1)
                        };
                        proof {
                            lemma_errs_assoc(
                                errs_view(errs0) + s_c.errs,
                                s_b.errs,
                                s_e.errs,
                            );
                            lemma_errs_assoc(errs_view(errs0), s_c.errs + s_b.errs, s_e.errs);
                        }
                        match e {
                            None => None,
                            Some((branch_f, m)) => {
                                let span = Span { start: ts[i].1.start, end: last_end_x(ts, m) };
                                let node = (
                                    Expr::If(
                                        Box::new(cond),
                                        Box::new(branch_t),
                                        Box::new(branch_f),
                                    ),
                                    span,
                                );
                                Some((node, m))
                            },
                        }
                    } else {
                        let span = Span { start: ts[i].1.start, end: last_end_x(ts, k2) };
                        proof {
                            assert(spanned_view((Expr::Value(Value::Null), span)) == (
                                ExprV::Value(ValueV::Null),
                                span,
                            ));
                        }
                        let node = (
                            Expr::If(
                                Box::new(cond),
                                Box::new(branch_t),
                                Box::new((Expr::Value(Value::Null), span)),
                            ),
                            span,
                        );
                        Some((node, k2))
                    }
                },
            }
        },
    }
}

/// One binary-operator level; the executable form of `spec_binary`.
fn binary_x(
    ts: &Vec<(Token, Span)>,
    eoi: Span,
    i: usize,
    l: usize,
    errs: &mut Vec<Error>,
) -> (r: Option<(Spanned<Expr>, usize)>)
    requires
        l <= 6,
    ensures
        pe_matches(spec_binary(ts@, eoi, i as int, l as nat), r, old(errs)@, final(errs)@),
    decreases ts@.len() - i, rank_binary(l as nat),
{
    let ghost errs0 = errs@;
    if l >= 6 {
        call_x(ts, eoi, i, errs)
    } else {
        let a = binary_x(ts, eoi, i, l + 1, errs);
        let ghost s_a = spec_binary(ts@, eoi, i as int, l as nat + 1);
        match a {
            None => None,
            Some((n, j)) => {
                if i < ts.len() {
                    let j2 = step_x(ts, i, j);
                    let r = binary_more_x(ts, eoi, n, j2, l, errs);
                    proof {
                        lemma_errs_assoc(
                            errs_view(errs0),
                            s_a.errs,
                            spec_binary_more(ts@, eoi, (s_a.res->0).0, j2 as int, l as nat).errs,
                        );
                    }
                    r
                } else {
                    Some((n, j))
                }
            },
        }
    }
}

/// The operator token at level `l`, if any; the executable form of
/// `level_op`.
fn level_op_x(l: usize, t: &Token) -> (r: Option<BinaryOp>)
    ensures
        r == level_op(l as nat, *t),
{
    if l == 0 {
        if t.is_op("||") { Some(BinaryOp::Or) } else { None }
    } else if l == 1 {
        if t.is_op("&&") { Some(BinaryOp::And) } else { None }
    } else if l == 2 {
        if t.is_op("==") { Some(BinaryOp::Eq) } else if t.is_op("!=") { Some(BinaryOp::Neq) } else { None }
    } else if l == 3 {
        if t.is_op("<") { Some(BinaryOp::Lt) } else if t.is_op(">") { Some(BinaryOp::Gt) } else if t.is_op("<=") { Some(BinaryOp::Leq) } else if t.is_op(">=") { Some(BinaryOp::Geq) } else { None }
    } else if l == 4 {
        if t.is_op("+") { Some(BinaryOp::Add) } else if t.is_op("-") { Some(BinaryOp::Sub) } else { None }
    } else if l == 5 {
        if t.is_op("*") { Some(BinaryOp::Mul) } else if t.is_op("/") { Some(BinaryOp::Div) } else if t.is_op("%") { Some(BinaryOp::Mod) } else { None }
    } else {
        None
    }
}

/// The folding loop of one binary level; the executable form of
/// `spec_binary_more`.
fn binary_more_x(
    ts: &Vec<(Token, Span)>,
    eoi: Span,
    left: Spanned<Expr>,
    i: usize,
    l: usize,
    errs: &mut Vec<Error>,
) -> (r: Option<(Spanned<Expr>, usize)>)
    requires
        l <= 6,
    ensures
        pe_matches(
            spec_binary_more(ts@, eoi, spanned_view(left), i as int, l as nat),
            r,
            old(errs)@,
            final(errs)@,
        ),
    decreases ts@.len() - i, rank_binary(l as nat),
{
    let ghost errs0 = errs@;
    let opx = if i < ts.len() {
        level_op_x(l, &ts[i].0)
    } else {
        None
    };
    match opx {
        None => {
            proof {
                assert(errs_view(errs0) + Seq::<(Span, Seq<char>)>::empty() =~= errs_view(errs0));
            }
            Some((left, i))
        },
        Some(op) => {
            let mut sub: Vec<Error> = Vec::new();
            let b = binary_x(ts, eoi, i + 1, l + 1, &mut sub);
            let ghost s_b = spec_binary(ts@, eoi, i as int + 1, l as nat + 1);
            proof {
                lemma_ev_empty();
                lemma_cat_unit::<(Span, Seq<char>)>(s_b.errs);
            }
            match b {
                None => {
                    proof {
                        assert(errs_view(errs0) + Seq::<(Span, Seq<char>)>::empty() =~= errs_view(
                            errs0,
                        ));
                    }
                    Some((left, i))
                },
                Some((rhs, k)) => {
                    let span = Span { start: left.1.start, end: rhs.1.end };
                    let node = (Expr::Binary(Box::new(left), op, Box::new(rhs)), span);
                    let ghost subv = sub@;
                    errs.append(&mut sub);
                    proof {
                        lemma_ev_cat(errs0, subv);
                    }
                    let j2 = step_x(ts, i, k);
                    let r = binary_more_x(ts, eoi, node, j2, l, errs);
                    proof {
                        lemma_errs_assoc(
                            errs_view(errs0),
                            s_b.errs,
                            spec_binary_more(ts@, eoi, spanned_view(node), j2 as int, l as nat).errs,
                        );
                    }
                    r
                },
            }
        },
    }
}

/// Call precedence; the executable form of `spec_call`.
fn call_x(
    ts: &Vec<(Token, Span)>,
    eoi: Span,
    i: usize,
    errs: &mut Vec<Error>,
) -> (r: Option<(Spanned<Expr>, usize)>)
    ensures
        pe_matches(spec_call(ts@, eoi, i as int), r, old(errs)@, final(errs)@),
    decreases ts@.len() - i, 9int,
{
    let ghost errs0 = errs@;
    let a = atom_x(ts, eoi, i, errs);
    let ghost s_a = spec_atom(ts@, eoi, i as int);
    match a {
        None => None,
        Some((n, j)) => {
            if i < ts.len() {
                let j2 = step_x(ts, i, j);
                let r = call_more_x(ts, eoi, n, j2, errs);
                proof {
                    lemma_errs_assoc(
                        errs_view(errs0),
                        s_a.errs,
                        spec_call_more(ts@, eoi, (s_a.res->0).0, j2 as int).errs,
                    );
                }
                r
            } else {
                Some((n, j))
            }
        },
    }
}

/// The argument-list loop; the executable form of `spec_call_more`.
fn call_more_x(
    ts: &Vec<(Token, Span)>,
    eoi: Span,
    left: Spanned<Expr>,
    i: usize,
    errs: &mut Vec<Error>,
) -> (r: Option<(Spanned<Expr>, usize)>)
    ensures
        pe_matches(
            spec_call_more(ts@, eoi, spanned_view(left), i as int),
            r,
            old(errs)@,
            final(errs)@,
        ),
    decreases ts@.len() - i, 9int,
{
    let ghost errs0 = errs@;
    if i < ts.len() && ts[i].0.is_ctrl('(') {
        let mut sub: Vec<Error> = Vec::new();
        let a = args_x(ts, eoi, i + 1, &mut sub);
        let ghost s_a = spec_args(ts@, eoi, i as int + 1);
        proof {
            lemma_ev_empty();
            lemma_cat_unit::<(Span, Seq<char>)>(s_a.errs);
        }
        match a {
            None => {
                proof {
                    assert(errs_view(errs0) + Seq::<(Span, Seq<char>)>::empty() =~= errs_view(
                        errs0,
                    ));
                }
                Some((left, i))
            },
            Some((args, close, m)) => {
                let gspan = Span { start: ts[i].1.start, end: close.end };
                let span = Span { start: left.1.start, end: gspan.end };
                let node = (Expr::Call(Box::new(left), (args, gspan)), span);
                let ghost subv = sub@;
                errs.append(&mut sub);
                proof {
                    lemma_ev_cat(errs0, subv);
                }
                let j2 = step_x(ts, i, m);
                let r = call_more_x(ts, eoi, node, j2, errs);
                proof {
                    lemma_errs_assoc(
                        errs_view(errs0),
                        s_a.errs,
                        spec_call_more(ts@, eoi, spanned_view(node), j2 as int).errs,
                    );
                }
                r
            },
        }
    } else {
        proof {
            assert(errs_view(errs0) + Seq::<(Span, Seq<char>)>::empty() =~= errs_view(errs0));
        }
        Some((left, i))
    }
}

/// A comma-separated argument list; the executable form of `spec_args`.
fn args_x(
    ts: &Vec<(Token, Span)>,
    eoi: Span,
    i: usize,
    errs: &mut Vec<Error>,
) -> (r: Option<(Vec<Spanned<Expr>>, Span, usize)>)
    ensures
        pa_matches(spec_args(ts@, eoi, i as int), r, old(errs)@, final(errs)@),
    decreases ts@.len() - i, 23int,
{
    let ghost errs0 = errs@;
    if i < ts.len() && ts[i].0.is_ctrl(')') {
        proof {
            assert(crate::nodes::expr::args_view(Seq::<Spanned<Expr>>::empty())
                =~= Seq::<(ExprV, Span)>::empty());
            assert(errs_view(errs0) + Seq::<(Span, Seq<char>)>::empty() =~= errs_view(errs0));
        }
        Some((Vec::new(), ts[i].1, i + 1))
    } else {
        let a = expr_parser(ts, eoi, i, errs);
        let ghost s_a = spec_parse_expr(ts@, eoi, i as int);
        match a {
            None => None,
            Some((e1, j)) => {
                if i < ts.len() {
                    let mut acc: Vec<Spanned<Expr>> = Vec::new();
                    let ghost sv = spanned_view(e1);
                    acc.push(e1);
                    proof {
                        assert(crate::nodes::expr::args_view(acc@) =~= seq![sv]) by {
                            assert(acc@.drop_last() =~= Seq::<Spanned<Expr>>::empty());
                            assert(crate::nodes::expr::args_view(Seq::<Spanned<Expr>>::empty())
                                =~= Seq::<(ExprV, Span)>::empty());
                        }
                    }
                    let j2 = step_x(ts, i, j);
                    let r = args_more_x(ts, eoi, acc, j2, errs);
                    proof {
                        lemma_errs_assoc(
                            errs_view(errs0),
                            s_a.errs,
                            spec_args_more(ts@, eoi, seq![(s_a.res->0).0], j2 as int).errs,
                        );
                    }
                    r
                } else {
                    None
                }
            },
        }
    }
}

/// The comma loop; the executable form of `spec_args_more`.
fn args_more_x(
    ts: &Vec<(Token, Span)>,
    eoi: Span,
    acc: Vec<Spanned<Expr>>,
    i: usize,
    errs: &mut Vec<Error>,
) -> (r: Option<(Vec<Spanned<Expr>>, Span, usize)>)
    ensures
        pa_matches(
            spec_args_more(ts@, eoi, crate::nodes::expr::args_view(acc@), i as int),
            r,
            old(errs)@,
            final(errs)@,
        ),
    decreases ts@.len() - i, 22int,
{
    let ghost errs0 = errs@;
    let ghost accv = crate::nodes::expr::args_view(acc@);
    if i < ts.len() && ts[i].0.is_ctrl(',') {
        if i + 1 < ts.len() && ts[i + 1].0.is_ctrl(')') {
            proof {
                assert(errs_view(errs0) + Seq::<(Span, Seq<char>)>::empty() =~= errs_view(errs0));
            }
            Some((acc, ts[i + 1].1, i + 2))
        } else {
            let a = expr_parser(ts, eoi, i + 1, errs);
            let ghost s_a = spec_parse_expr(ts@, eoi, i as int + 1);
            match a {
                None => None,
                Some((e2, k)) => {
                    let mut acc2 = acc;
                    let ghost sv = spanned_view(e2);
                    acc2.push(e2);
                    proof {
                        lemma_args_view_push(acc@, e2);
                    }
                    let j2 = step_x(ts, i, k);
                    let r = args_more_x(ts, eoi, acc2, j2, errs);
                    proof {
                        lemma_errs_assoc(
                            errs_view(errs0),
                            s_a.errs,
                            spec_args_more(ts@, eoi, accv.push(sv), j2 as int).errs,
                        );
                    }
                    r
                },
            }
        }
    } else if i < ts.len() && ts[i].0.is_ctrl(')') {
        proof {
            assert(errs_view(errs0) + Seq::<(Span, Seq<char>)>::empty() =~= errs_view(errs0));
        }
        Some((acc, ts[i].1, i + 1))
    } else {
        push_unexpected(ts, eoi, i, errs);
        None
    }
}

/// An atom; the executable form of `spec_atom`.
fn atom_x(
    ts: &Vec<(Token, Span)>,
    eoi: Span,
    i: usize,
    errs: &mut Vec<Error>,
) -> (r: Option<(Spanned<Expr>, usize)>)
    ensures
        pe_matches(spec_atom(ts@, eoi, i as int), r, old(errs)@, final(errs)@),
    decreases ts@.len() - i, 8int,
{
    let ghost errs0 = errs@;
    if i >= ts.len() {
        push_unexpected(ts, eoi, i, errs);
        return None;
    }
    match &ts[i].0 {
        Token::Num(text) => {
            match num_value(text) {
                Some(v) => {
                    proof {
                        assert(errs_view(errs0) + Seq::<(Span, Seq<char>)>::empty() =~= errs_view(
                            errs0,
                        ));
                    }
                    Some(((Expr::Value(Value::I32(v)), ts[i].1), i + 1))
                },
                None => {
                    errs.push(
                        Error { span: ts[i].1, msg: "invalid number literal".to_owned() },
                    );
                    proof {
                        assert(errs_view(errs@) =~= errs_view(errs0) + seq![
                            (ts@[i as int].1, "invalid number literal"@),
                        ]);
                    }
                    None
                },
            }
        },
        Token::Ident(name) => {
            proof {
                assert(errs_view(errs0) + Seq::<(Span, Seq<char>)>::empty() =~= errs_view(errs0));
            }
            Some(((Expr::Local(name.clone()), ts[i].1), i + 1))
        },
        Token::Var => var_x(ts, eoi, i, errs),
        Token::Return => {
            let a = expr_parser(ts, eoi, i + 1, errs);
            match a {
                None => None,
                Some((inner, k)) => {
                    let span = Span { start: ts[i].1.start, end: last_end_x(ts, k) };
                    Some(((Expr::Return(Box::new(inner)), span), k))
                },
            }
        },
        Token::Ctrl(c) => {
            let cc = *c;
            if cc == '(' {
                paren_x(ts, eoi, i, errs)
            } else if cc == '[' {
                push_unexpected(ts, eoi, i, errs);
                let ghost mid = errs@;
                let r = recover_x(ts, i, ']', errs);
                proof {
                    lemma_recover_errs(ts@, i as int, ']', seq![err_unexpected(ts@, eoi, i as int)]);
                    lemma_errs_assoc(
                        errs_view(errs0),
                        seq![err_unexpected(ts@, eoi, i as int)],
                        spec_recover(ts@, i as int, ']', Seq::empty()).errs,
                    );
                }
                r
            } else {
                push_unexpected(ts, eoi, i, errs);
                None
            }
        },
        _ => {
            push_unexpected(ts, eoi, i, errs);
            None
        },
    }
}

/// A `var NAME = init; body` binding; the executable form of `spec_var`.
fn var_x(
    ts: &Vec<(Token, Span)>,
    eoi: Span,
    i: usize,
    errs: &mut Vec<Error>,
) -> (r: Option<(Spanned<Expr>, usize)>)
    requires
        i < ts@.len(),
    ensures
        pe_matches(spec_var(ts@, eoi, i as int), r, old(errs)@, final(errs)@),
    decreases ts@.len() - i, 7int,
{
    let ghost errs0 = errs@;
    let n = ts.len();
    if !(i + 1 < n && matches!(ts[i + 1].0, Token::Ident(_))) {
        push_unexpected(ts, eoi, i + 1, errs);
        return None;
    }
    if !(i + 2 < n && ts[i + 2].0.is_op("=")) {
        push_unexpected(ts, eoi, i + 2, errs);
        return None;
    }
    let a = binary_x(ts, eoi, i + 3, 0, errs);
    let ghost s_a = spec_binary(ts@, eoi, i as int + 3, 0);
    match a {
        None => None,
        Some((init, j)) => {
            let jm = step_x(ts, i + 2, j);
            if !(jm < ts.len() && ts[jm].0.is_ctrl(';')) {
                push_unexpected(ts, eoi, jm, errs);
                proof {
                    lemma_errs_assoc(
                        errs_view(errs0),
                        s_a.errs,
                        seq![err_unexpected(ts@, eoi, jm as int)],
                    );
                }
                return None;
            }
            let b = expr_parser(ts, eoi, jm + 1, errs);
            let ghost s_b = spec_parse_expr(ts@, eoi, jm as int + 1);
            proof {
                lemma_errs_assoc(errs_view(errs0), s_a.errs, s_b.errs);
            }
            match b {
                None => None,
                Some((body, k)) => {
                    let name = match &ts[i + 1].0 {
                        Token::Ident(n) => n.clone(),
                        _ => unreached(),
                    };
                    let span = Span { start: ts[i].1.start, end: last_end_x(ts, k) };
                    let node = (Expr::Var(name, Box::new(init), Box::new(body)), span);
                    Some((node, k))
                },
            }
        },
    }
}

/// A parenthesized sub-expression with recovery; the executable form of
/// `spec_paren`.
fn paren_x(
    ts: &Vec<(Token, Span)>,
    eoi: Span,
    i: usize,
    errs: &mut Vec<Error>,
) -> (r: Option<(Spanned<Expr>, usize)>)
    ensures
        pe_matches(spec_paren(ts@, eoi, i as int), r, old(errs)@, final(errs)@),
    decreases ts@.len() - i, 7int,
{
    let ghost errs0 = errs@;
    if !(i < ts.len() && ts[i].0.is_ctrl('(')) {
        push_unexpected(ts, eoi, i, errs);
        return None;
    }
    let a = expr_parser(ts, eoi, i + 1, errs);
    let ghost s_a = spec_parse_expr(ts@, eoi, i as int + 1);
    match a {
        Some((node, j)) => {
            if j < ts.len() && ts[j].0.is_ctrl(')') {
                Some((node, j + 1))
            } else {
                push_unexpected(ts, eoi, j, errs);
                let r = recover_x(ts, i, ')', errs);
                proof {
                    lemma_recover_errs(
                        ts@,
                        i as int,
                        ')',
                        s_a.errs + seq![err_unexpected(ts@, eoi, j as int)],
                    );
                    lemma_errs_assoc(
                        errs_view(errs0),
                        s_a.errs,
                        seq![err_unexpected(ts@, eoi, j as int)],
                    );
                    lemma_errs_assoc(
                        errs_view(errs0),
                        s_a.errs + seq![err_unexpected(ts@, eoi, j as int)],
                        spec_recover(ts@, i as int, ')', Seq::empty()).errs,
                    );
                }
                r
            }
        },
        None => {
            let r = recover_x(ts, i, ')', errs);
            proof {
                lemma_recover_errs(ts@, i as int, ')', s_a.errs);
                lemma_errs_assoc(
                    errs_view(errs0),
                    s_a.errs,
                    spec_recover(ts@, i as int, ')', Seq::empty()).errs,
                );
            }
            r
        },
    }
}


// ---------------------------------------------------------------------------
// Failure reports an error; a clean parse builds a clean tree
// ---------------------------------------------------------------------------
/// What the cleanliness lemmas state of one expression outcome: a failed
/// parse always left a diagnostic, and a parse that left none built a tree
/// free of placeholder nodes.
pub open spec fn pe_clean(s: PE) -> bool {
    &&& s.res is None ==> s.errs.len() > 0
    &&& (s.res is Some && s.errs.len() == 0) ==> crate::interpreter::no_error_nodes(
        (s.res->0).0.0,
    )
}

/// The analogue for argument lists.
pub open spec fn pa_clean(s: PA) -> bool {
    &&& s.res is None ==> s.errs.len() > 0
    &&& (s.res is Some && s.errs.len() == 0) ==> crate::interpreter::args_no_error((s.res->0).0)
}

/// Every element of a clean argument list image is clean.
proof fn lemma_args_no_error_push(args: Seq<(ExprV, Span)>, e: (ExprV, Span))
    requires
        crate::interpreter::args_no_error(args),
        crate::interpreter::no_error_nodes(e.0),
    ensures
        crate::interpreter::args_no_error(args.push(e)),
{
    assert(args.push(e).drop_last() =~= args);
}

pub proof fn lemma_expr_clean(ts: Seq<(Token, Span)>, eoi: Span, i: int)
    ensures
        pe_clean(spec_parse_expr(ts, eoi, i)),
    decreases ts.len() - i, 20int,
{
    if at_ctrl(ts, i, '{') || at_if_kw(ts, i) {
        lemma_block_chain_clean(ts, eoi, i);
        let a = spec_block_chain(ts, eoi, i);
        if a.res is Some && 0 <= i < ts.len() {
            if a.errs.len() == 0 {
                lemma_expr_more_clean(ts, eoi, (a.res->0).0, step(ts, i, (a.res->0).1));
            } else {
                lemma_expr_more_someness(ts, eoi, (a.res->0).0, step(ts, i, (a.res->0).1));
            }
        }
    } else {
        lemma_binary_clean(ts, eoi, i, 0);
        let a = spec_binary(ts, eoi, i, 0);
        if a.res is Some && 0 <= i < ts.len() {
            if a.errs.len() == 0 {
                lemma_expr_more_clean(ts, eoi, (a.res->0).0, step(ts, i, (a.res->0).1));
            } else {
                lemma_expr_more_someness(ts, eoi, (a.res->0).0, step(ts, i, (a.res->0).1));
            }
        }
    }
}

pub proof fn lemma_expr_more_clean(ts: Seq<(Token, Span)>, eoi: Span, left: (ExprV, Span), i: int)
    requires
        crate::interpreter::no_error_nodes(left.0),
    ensures
        pe_clean(spec_expr_more(ts, eoi, left, i)),
        spec_expr_more(ts, eoi, left, i).res is Some,
    decreases ts.len() - i, 21int,
{
    if at_ctrl(ts, i, ';') {
        lemma_expr_clean(ts, eoi, i + 1);
        let a = spec_parse_expr(ts, eoi, i + 1);
        match a.res {
            Some((b, k)) => {
                let node = (
                    ExprV::Then(Box::new(left), Box::new(b)),
                    Span { start: left.1.start, end: b.1.end },
                );
                let r = spec_expr_more(ts, eoi, node, step(ts, i, k));
                if a.errs.len() == 0 {
                    lemma_expr_more_clean(ts, eoi, node, step(ts, i, k));
                } else {
                    lemma_expr_more_someness(ts, eoi, node, step(ts, i, k));
                }
            },
            None => {
                lemma_expr_more_clean(ts, eoi, left, i + 1);
            },
        }
    }
}

/// `spec_expr_more` never fails, whatever its left operand.
proof fn lemma_expr_more_someness(ts: Seq<(Token, Span)>, eoi: Span, left: (ExprV, Span), i: int)
    ensures
        spec_expr_more(ts, eoi, left, i).res is Some,
    decreases ts.len() - i, 21int,
{
    if at_ctrl(ts, i, ';') {
        let a = spec_parse_expr(ts, eoi, i + 1);
        match a.res {
            Some((b, k)) => {
                let node = (
                    ExprV::Then(Box::new(left), Box::new(b)),
                    Span { start: left.1.start, end: b.1.end },
                );
                lemma_expr_more_someness(ts, eoi, node, step(ts, i, k));
            },
            None => {
                lemma_expr_more_someness(ts, eoi, left, i + 1);
            },
        }
    }
}

pub proof fn lemma_block_chain_clean(ts: Seq<(Token, Span)>, eoi: Span, i: int)
    ensures
        pe_clean(spec_block_chain(ts, eoi, i)),
    decreases ts.len() - i, 19int,
{
    lemma_block_expr_clean(ts, eoi, i);
    let a = spec_block_expr(ts, eoi, i);
    match a.res {
        None => {},
        Some((n, j)) => {
            if 0 <= i < ts.len() && a.errs.len() == 0 {
                lemma_chain_more_clean(ts, eoi, n, step(ts, i, j));
            } else if 0 <= i < ts.len() {
                lemma_chain_more_someness(ts, eoi, n, step(ts, i, j));
            }
        },
    }
}

pub proof fn lemma_chain_more_clean(ts: Seq<(Token, Span)>, eoi: Span, left: (ExprV, Span), i: int)
    requires
        crate::interpreter::no_error_nodes(left.0),
    ensures
        pe_clean(spec_chain_more(ts, eoi, left, i)),
        spec_chain_more(ts, eoi, left, i).res is Some,
    decreases ts.len() - i, 19int,
{
    if at_ctrl(ts, i, '{') || at_if_kw(ts, i) {
        lemma_block_expr_clean(ts, eoi, i);
        let b = spec_block_expr(ts, eoi, i);
        match b.res {
            None => {},
            Some((n2, j)) => {
                let node = (
                    ExprV::Then(Box::new(left), Box::new(n2)),
                    Span { start: left.1.start, end: n2.1.end },
                );
                if b.errs.len() == 0 {
                    lemma_chain_more_clean(ts, eoi, node, step(ts, i, j));
                } else {
                    lemma_chain_more_someness(ts, eoi, node, step(ts, i, j));
                }
            },
        }
    }
}

/// `spec_chain_more` never fails.
proof fn lemma_chain_more_someness(ts: Seq<(Token, Span)>, eoi: Span, left: (ExprV, Span), i: int)
    ensures
        spec_chain_more(ts, eoi, left, i).res is Some,
    decreases ts.len() - i, 19int,
{
    if at_ctrl(ts, i, '{') || at_if_kw(ts, i) {
        let b = spec_block_expr(ts, eoi, i);
        match b.res {
            None => {},
            Some((n2, j)) => {
                let node = (
                    ExprV::Then(Box::new(left), Box::new(n2)),
                    Span { start: left.1.start, end: n2.1.end },
                );
                lemma_chain_more_someness(ts, eoi, node, step(ts, i, j));
            },
        }
    }
}

pub proof fn lemma_block_expr_clean(ts: Seq<(Token, Span)>, eoi: Span, i: int)
    ensures
        pe_clean(spec_block_expr(ts, eoi, i)),
    decreases ts.len() - i, 18int,
{
    if at_ctrl(ts, i, '{') {
        lemma_block_clean(ts, eoi, i);
    } else if at_if_kw(ts, i) {
        lemma_if_clean(ts, eoi, i);
    }
}

pub proof fn lemma_block_clean(ts: Seq<(Token, Span)>, eoi: Span, i: int)
    ensures
        pe_clean(spec_block(ts, eoi, i)),
    decreases ts.len() - i, 17int,
{
    if at_ctrl(ts, i, '{') {
        lemma_expr_clean(ts, eoi, i + 1);
    }
}

pub proof fn lemma_if_clean(ts: Seq<(Token, Span)>, eoi: Span, i: int)
    ensures
        pe_clean(spec_if(ts, eoi, i)),
    decreases ts.len() - i, 17int,
{
    if at_if_kw(ts, i) {
        lemma_expr_clean(ts, eoi, i + 1);
        let c = spec_parse_expr(ts, eoi, i + 1);
        match c.res {
            None => {},
            Some((cond, j)) => {
                let jb = step(ts, i, j);
                lemma_block_clean(ts, eoi, jb);
                let b = spec_block(ts, eoi, jb);
                match b.res {
                    None => {},
                    Some((branch_t, k)) => {
                        let k2 = step(ts, jb, k);
                        if at_else_kw(ts, k2) {
                            if at_if_kw(ts, k2 + 1) {
                                lemma_if_clean(ts, eoi, k2 + 1);
                            } else {
                                lemma_block_clean(ts, eoi, k2 + 1);
                            }
                        } else {
                            assert(crate::interpreter::no_error_nodes(
                                ExprV::Value(ValueV::Null),
                            ));
                        }
                    },
                }
            },
        }
    }
}

pub proof fn lemma_binary_clean(ts: Seq<(Token, Span)>, eoi: Span, i: int, l: nat)
    ensures
        pe_clean(spec_binary(ts, eoi, i, l)),
    decreases ts.len() - i, rank_binary(l),
{
    if l >= 6 {
        lemma_call_clean(ts, eoi, i);
    } else {
        lemma_binary_clean(ts, eoi, i, l + 1);
        let a = spec_binary(ts, eoi, i, l + 1);
        match a.res {
            None => {},
            Some((n, j)) => {
                if 0 <= i < ts.len() && a.errs.len() == 0 {
                    lemma_binary_more_clean(ts, eoi, n, step(ts, i, j), l);
                } else if 0 <= i < ts.len() {
                    lemma_binary_more_someness(ts, eoi, n, step(ts, i, j), l);
                }
            },
        }
    }
}

pub proof fn lemma_binary_more_clean(
    ts: Seq<(Token, Span)>,
    eoi: Span,
    left: (ExprV, Span),
    i: int,
    l: nat,
)
    requires
        crate::interpreter::no_error_nodes(left.0),
    ensures
        pe_clean(spec_binary_more(ts, eoi, left, i, l)),
        spec_binary_more(ts, eoi, left, i, l).res is Some,
    decreases ts.len() - i, rank_binary(l),
{
    if 0 <= i < ts.len() && level_op(l, ts[i].0) is Some {
        let op = level_op(l, ts[i].0)->0;
        lemma_binary_clean(ts, eoi, i + 1, (l + 1) as nat);
        let b = spec_binary(ts, eoi, i + 1, (l + 1) as nat);
        match b.res {
            None => {},
            Some((rhs, k)) => {
                let node = (
                    ExprV::Binary(Box::new(left), op, Box::new(rhs)),
                    Span { start: left.1.start, end: rhs.1.end },
                );
                if b.errs.len() == 0 {
                    lemma_binary_more_clean(ts, eoi, node, step(ts, i, k), l);
                } else {
                    lemma_binary_more_someness(ts, eoi, node, step(ts, i, k), l);
                }
            },
        }
    }
}

/// `spec_binary_more` never fails.
proof fn lemma_binary_more_someness(
    ts: Seq<(Token, Span)>,
    eoi: Span,
    left: (ExprV, Span),
    i: int,
    l: nat,
)
    ensures
        spec_binary_more(ts, eoi, left, i, l).res is Some,
    decreases ts.len() - i, rank_binary(l),
{
    if 0 <= i < ts.len() && level_op(l, ts[i].0) is Some {
        let op = level_op(l, ts[i].0)->0;
        let b = spec_binary(ts, eoi, i + 1, (l + 1) as nat);
        match b.res {
            None => {},
            Some((rhs, k)) => {
                let node = (
                    ExprV::Binary(Box::new(left), op, Box::new(rhs)),
                    Span { start: left.1.start, end: rhs.1.end },
                );
                lemma_binary_more_someness(ts, eoi, node, step(ts, i, k), l);
            },
        }
    }
}

pub proof fn lemma_call_clean(ts: Seq<(Token, Span)>, eoi: Span, i: int)
    ensures
        pe_clean(spec_call(ts, eoi, i)),
    decreases ts.len() - i, 9int,
{
    lemma_atom_clean(ts, eoi, i);
    let a = spec_atom(ts, eoi, i);
    match a.res {
        None => {},
        Some((n, j)) => {
            if 0 <= i < ts.len() && a.errs.len() == 0 {
                lemma_call_more_clean(ts, eoi, n, step(ts, i, j));
            } else if 0 <= i < ts.len() {
                lemma_call_more_someness(ts, eoi, n, step(ts, i, j));
            }
        },
    }
}

pub proof fn lemma_call_more_clean(ts: Seq<(Token, Span)>, eoi: Span, left: (ExprV, Span), i: int)
    requires
        crate::interpreter::no_error_nodes(left.0),
    ensures
        pe_clean(spec_call_more(ts, eoi, left, i)),
        spec_call_more(ts, eoi, left, i).res is Some,
    decreases ts.len() - i, 9int,
{
    if at_ctrl(ts, i, '(') {
        lemma_args_clean(ts, eoi, i + 1);
        let a = spec_args(ts, eoi, i + 1);
        match a.res {
            None => {},
            Some((args, close, m)) => {
                let gspan = Span { start: ts[i].1.start, end: close.end };
                let node = (
                    ExprV::Call(Box::new(left), (args, gspan)),
                    Span { start: left.1.start, end: gspan.end },
                );
                if a.errs.len() == 0 {
                    lemma_call_more_clean(ts, eoi, node, step(ts, i, m));
                } else {
                    lemma_call_more_someness(ts, eoi, node, step(ts, i, m));
                }
            },
        }
    }
}

/// `spec_call_more` never fails.
proof fn lemma_call_more_someness(ts: Seq<(Token, Span)>, eoi: Span, left: (ExprV, Span), i: int)
    ensures
        spec_call_more(ts, eoi, left, i).res is Some,
    decreases ts.len() - i, 9int,
{
    if at_ctrl(ts, i, '(') {
        let a = spec_args(ts, eoi, i + 1);
        match a.res {
            None => {},
            Some((args, close, m)) => {
                let gspan = Span { start: ts[i].1.start, end: close.end };
                let node = (
                    ExprV::Call(Box::new(left), (args, gspan)),
                    Span { start: left.1.start, end: gspan.end },
                );
                lemma_call_more_someness(ts, eoi, node, step(ts, i, m));
            },
        }
    }
}

/// Out of range, every binary level fails.
proof fn lemma_binary_oob(ts: Seq<(Token, Span)>, eoi: Span, i: int, l: nat)
    requires
        !(0 <= i < ts.len()),
    ensures
        spec_binary(ts, eoi, i, l).res is None,
    decreases (if l <= 6 { (6 - l) as int } else { 0int }),
{
    if l < 6 {
        lemma_binary_oob(ts, eoi, i, l + 1);
    } else {
        assert(spec_atom(ts, eoi, i).res is None);
        assert(spec_call(ts, eoi, i).res is None);
    }
}

pub proof fn lemma_args_clean(ts: Seq<(Token, Span)>, eoi: Span, i: int)
    ensures
        pa_clean(spec_args(ts, eoi, i)),
    decreases ts.len() - i, 23int,
{
    if !at_ctrl(ts, i, ')') {
        lemma_expr_clean(ts, eoi, i);
        let a = spec_parse_expr(ts, eoi, i);
        match a.res {
            None => {},
            Some((e1, j)) => {
                if 0 <= i < ts.len() {
                    if a.errs.len() == 0 {
                        assert(crate::interpreter::args_no_error(seq![e1])) by {
                            assert(seq![e1].drop_last() =~= Seq::<(ExprV, Span)>::empty());
                            assert(crate::interpreter::args_no_error(
                                Seq::<(ExprV, Span)>::empty(),
                            ));
                            assert(seq![e1].last() == e1);
                        }
                        lemma_args_more_clean(ts, eoi, seq![e1], step(ts, i, j));
                    } else {
                        lemma_args_more_errs(ts, eoi, seq![e1], step(ts, i, j));
                    }
                } else {
                    lemma_binary_oob(ts, eoi, i, 0);
                    assert(false);
                }
            },
        }
    }
}

pub proof fn lemma_args_more_clean(
    ts: Seq<(Token, Span)>,
    eoi: Span,
    acc: Seq<(ExprV, Span)>,
    i: int,
)
    requires
        crate::interpreter::args_no_error(acc),
    ensures
        pa_clean(spec_args_more(ts, eoi, acc, i)),
    decreases ts.len() - i, 22int,
{
    if at_ctrl(ts, i, ',') {
        if !at_ctrl(ts, i + 1, ')') {
            lemma_expr_clean(ts, eoi, i + 1);
            let a = spec_parse_expr(ts, eoi, i + 1);
            match a.res {
                None => {},
                Some((e2, k)) => {
                    if a.errs.len() == 0 {
                        lemma_args_no_error_push(acc, e2);
                        lemma_args_more_clean(ts, eoi, acc.push(e2), step(ts, i, k));
                    } else {
                        lemma_args_more_errs(ts, eoi, acc.push(e2), step(ts, i, k));
                    }
                },
            }
        }
    }
}

/// `spec_args_more` leaves a diagnostic whenever it fails.
proof fn lemma_args_more_errs(ts: Seq<(Token, Span)>, eoi: Span, acc: Seq<(ExprV, Span)>, i: int)
    ensures
        spec_args_more(ts, eoi, acc, i).res is None ==> spec_args_more(
            ts,
            eoi,
            acc,
            i,
        ).errs.len() > 0,
    decreases ts.len() - i, 22int,
{
    if at_ctrl(ts, i, ',') {
        if !at_ctrl(ts, i + 1, ')') {
            lemma_expr_clean(ts, eoi, i + 1);
            let a = spec_parse_expr(ts, eoi, i + 1);
            match a.res {
                None => {},
                Some((e2, k)) => {
                    lemma_args_more_errs(ts, eoi, acc.push(e2), step(ts, i, k));
                },
            }
        }
    }
}

pub proof fn lemma_atom_clean(ts: Seq<(Token, Span)>, eoi: Span, i: int)
    ensures
        pe_clean(spec_atom(ts, eoi, i)),
    decreases ts.len() - i, 8int,
{
    if 0 <= i < ts.len() {
        match ts[i].0 {
            Token::Var => lemma_var_clean(ts, eoi, i),
            Token::Return => lemma_expr_clean(ts, eoi, i + 1),
            Token::Ctrl(c) => if c == '(' {
                lemma_paren_clean(ts, eoi, i)
            },
            _ => {},
        }
    }
}

pub proof fn lemma_var_clean(ts: Seq<(Token, Span)>, eoi: Span, i: int)
    ensures
        pe_clean(spec_var(ts, eoi, i)),
    decreases ts.len() - i, 7int,
{
    if at_ident(ts, i + 1) && at_op(ts, i + 2, "="@) {
        lemma_binary_clean(ts, eoi, i + 3, 0);
        let a = spec_binary(ts, eoi, i + 3, 0);
        match a.res {
            None => {},
            Some((init, j)) => {
                let jm = step(ts, i + 2, j);
                if at_ctrl(ts, jm, ';') {
                    lemma_expr_clean(ts, eoi, jm + 1);
                }
            },
        }
    }
}

pub proof fn lemma_paren_clean(ts: Seq<(Token, Span)>, eoi: Span, i: int)
    ensures
        pe_clean(spec_paren(ts, eoi, i)),
    decreases ts.len() - i, 7int,
{
    if at_ctrl(ts, i, '(') {
        lemma_expr_clean(ts, eoi, i + 1);
    }
}

} // verus!
