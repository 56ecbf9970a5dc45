use crate::span::Span;
use crate::tokens::Token;
use crate::Error;
use vstd::prelude::*;

pub mod expr;
pub mod funcs;

verus! {

/// The image of a diagnostic list: each entry's span and message text.
pub open spec fn errs_view(es: Seq<Error>) -> Seq<(Span, Seq<char>)> {
    es.map_values(|e: Error| (e.span, e.msg@))
}

/// The span at token position `i`: the token's span, or the end-of-input span.
pub open spec fn span_at(ts: Seq<(Token, Span)>, eoi: Span, i: int) -> Span {
    if 0 <= i < ts.len() {
        ts[i].1
    } else {
        eoi
    }
}

/// The diagnostic recorded when parsing cannot proceed at position `i`.
pub open spec fn err_unexpected(ts: Seq<(Token, Span)>, eoi: Span, i: int) -> (Span, Seq<char>) {
    if 0 <= i < ts.len() {
        (ts[i].1, "unexpected token"@)
    } else {
        (eoi, "unexpected end of input"@)
    }
}

/// Pushes the "unexpected ..." diagnostic for position `i`.
pub(crate) fn push_unexpected(
    ts: &Vec<(Token, Span)>,
    eoi: Span,
    i: usize,
    errs: &mut Vec<Error>,
)
    ensures
        errs_view(final(errs)@) == errs_view(old(errs)@) + seq![err_unexpected(ts@, eoi, i as int)],
{
    let ghost errs0 = errs@;
    if i < ts.len() {
        errs.push(Error { span: ts[i].1, msg: "unexpected token".to_owned() });
    } else {
        errs.push(Error { span: eoi, msg: "unexpected end of input".to_owned() });
    }
    proof {
        assert(errs_view(errs@) =~= errs_view(errs0) + seq![err_unexpected(ts@, eoi, i as int)]);
    }
}

/// Concatenation of diagnostic lists is associative.
pub proof fn lemma_errs_assoc<T>(a: Seq<T>, b: Seq<T>, c: Seq<T>)
    ensures
        a + (b + c) == (a + b) + c,
{
    assert(a + (b + c) =~= (a + b) + c);
}

} // verus!
