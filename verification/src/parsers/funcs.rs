use crate::nodes::expr::{Expr, ExprV};
use crate::nodes::func::{entries_view, func_view, names_view, Func, FuncTable, FuncV};
use crate::parsers::expr::{at_ctrl, at_ident, ident_at, spec_block, step};
use crate::parsers::{err_unexpected, errs_view, lemma_errs_assoc, push_unexpected, span_at};
use crate::span::Span;
use crate::tokens::Token;
use crate::Error;
use vstd::prelude::*;
use vstd::string::StringExecFns;

verus! {

broadcast use vstd::std_specs::vec::group_vec_axioms, vstd::seq::group_seq_axioms;

/// A specification-level parse outcome for a parameter list.
pub struct PP {
    pub res: Option<(Seq<Seq<char>>, int)>,
    pub errs: Seq<(Span, Seq<char>)>,
}

/// A specification-level parse outcome for a whole program: on success the
/// function table's entries in source order.
pub struct PF {
    pub res: Option<Seq<(Seq<char>, FuncV)>>,
    pub errs: Seq<(Span, Seq<char>)>,
}

/// The diagnostic message for a function name defined twice.
pub open spec fn dup_msg(name: Seq<char>) -> Seq<char> {
    "Function '"@ + name + "' already exists"@
}

/// Whether one of the first `k` entries is named `name`.
pub open spec fn contains_name(acc: Seq<(Seq<char>, FuncV)>, k: int, name: Seq<char>) -> bool {
    exists|j: int| 0 <= j < k && acc[j].0 == name
}

/// The first entry whose name already appeared earlier in the list, if any.
pub open spec fn spec_first_dup(acc: Seq<(Seq<char>, FuncV)>, k: int) -> Option<int>
    decreases acc.len() - k,
{
    if !(0 <= k < acc.len()) {
        None
    } else if contains_name(acc, k, acc[k].0) {
        Some(k)
    } else {
        spec_first_dup(acc, k + 1)
    }
}

/// A parenthesized, comma-separated parameter list (trailing comma allowed),
/// entered just after the opening parenthesis.
pub open spec fn spec_params(ts: Seq<(Token, Span)>, eoi: Span, i: int) -> PP
    decreases ts.len() - i, 1int,
{
    if at_ctrl(ts, i, ')') {
        PP { res: Some((Seq::empty(), i + 1)), errs: Seq::empty() }
    } else if at_ident(ts, i) {
        spec_params_more(ts, eoi, seq![ident_at(ts, i)], i + 1)
    } else {
        PP { res: None, errs: seq![err_unexpected(ts, eoi, i)] }
    }
}

/// The comma loop of `spec_params`.
pub open spec fn spec_params_more(ts: Seq<(Token, Span)>, eoi: Span, acc: Seq<Seq<char>>, i: int) -> PP
    decreases ts.len() - i, 0int,
{
    if at_ctrl(ts, i, ',') {
        if at_ctrl(ts, i + 1, ')') {
            PP { res: Some((acc, i + 2)), errs: Seq::empty() }
        } else if at_ident(ts, i + 1) {
            spec_params_more(ts, eoi, acc.push(ident_at(ts, i + 1)), i + 2)
        } else {
            PP { res: None, errs: seq![err_unexpected(ts, eoi, i + 1)] }
        }
    } else if at_ctrl(ts, i, ')') {
        PP { res: Some((acc, i + 1)), errs: Seq::empty() }
    } else {
        PP { res: None, errs: seq![err_unexpected(ts, eoi, i)] }
    }
}

/// The program level: `fn NAME ( params ) { body }`, repeated to the end of
/// the input, with delimiter recovery for malformed bodies; once all functions
/// are parsed, a table with two definitions sharing a name is rejected with an
/// error at the second name's span.
pub open spec fn spec_parse_funcs(
    ts: Seq<(Token, Span)>,
    eoi: Span,
    i: int,
    acc: Seq<(Seq<char>, FuncV)>,
    spans: Seq<Span>,
) -> PF
    decreases ts.len() - i,
{
    if !(0 <= i < ts.len()) {
        match spec_first_dup(acc, 0) {
            Some(k) => PF { res: None, errs: seq![(spans[k], dup_msg(acc[k].0))] },
            None => PF { res: Some(acc), errs: Seq::empty() },
        }
    } else if !(ts[i].0 is Fn) {
        PF { res: None, errs: seq![err_unexpected(ts, eoi, i)] }
    } else if !at_ident(ts, i + 1) {
        PF { res: None, errs: seq![err_unexpected(ts, eoi, i + 1)] }
    } else if !at_ctrl(ts, i + 2, '(') {
        PF { res: None, errs: seq![err_unexpected(ts, eoi, i + 2)] }
    } else {
        let p = spec_params(ts, eoi, i + 3);
        match p.res {
            None => PF { res: None, errs: p.errs },
            Some((params, q)) => {
                let q2 = step(ts, i + 2, q);
                let b = spec_block(ts, eoi, q2);
                match b.res {
                    None => PF { res: None, errs: p.errs + b.errs },
                    Some((body, m)) => {
                        let fv = FuncV { args: params, body };
                        let r = spec_parse_funcs(
                            ts,
                            eoi,
                            step(ts, i, m),
                            acc.push((ident_at(ts, i + 1), fv)),
                            spans.push(span_at(ts, eoi, i + 1)),
                        );
                        PF { res: r.res, errs: p.errs + b.errs + r.errs }
                    },
                }
            },
        }
    }
}

/// A whole program's parse outcome.
pub open spec fn spec_parse(ts: Seq<(Token, Span)>, eoi: Span) -> PF {
    spec_parse_funcs(ts, eoi, 0, Seq::empty(), Seq::empty())
}

/// Pushing an entry extends the entry-list image pointwise.
proof fn lemma_entries_view_push(es: Seq<(String, Func)>, e: (String, Func))
    ensures
        entries_view(es.push(e)) == entries_view(es).push((e.0@, func_view(e.1))),
{
    assert(entries_view(es.push(e)) =~= entries_view(es).push((e.0@, func_view(e.1))));
}

/// A parameter list; the executable form of `spec_params`.
fn params_x(ts: &Vec<(Token, Span)>, eoi: Span, i: usize, errs: &mut Vec<Error>) -> (r: Option<
    (Vec<String>, usize),
>)
    ensures
        ({
            let s = spec_params(ts@, eoi, i as int);
            &&& errs_view(final(errs)@) == errs_view(old(errs)@) + s.errs
            &&& match (r, s.res) {
                (Some(p), Some(q)) => names_view(p.0@) == q.0 && p.1 as int == q.1,
                (None, None) => true,
                _ => false,
            }
        }),
    decreases ts@.len() - i, 1int,
{
    let ghost errs0 = errs@;
    if i < ts.len() && ts[i].0.is_ctrl(')') {
        proof {
            lemma_cat_unit(errs_view(errs0));
            assert(names_view(Seq::<String>::empty()) =~= Seq::<Seq<char>>::empty());
        }
        Some((Vec::new(), i + 1))
    } else if i < ts.len() && matches!(ts[i].0, Token::Ident(_)) {
        let name = match &ts[i].0 {
            Token::Ident(n) => n.clone(),
            _ => unreached(),
        };
        let mut acc: Vec<String> = Vec::new();
        let ghost nv = name@;
        acc.push(name);
        proof {
            assert(names_view(acc@) =~= seq![ident_at(ts@, i as int)]);
        }
        params_more_x(ts, eoi, acc, i + 1, errs)
    } else {
        push_unexpected(ts, eoi, i, errs);
        None
    }
}

/// Concatenating no diagnostics changes nothing.
proof fn lemma_cat_unit(x: Seq<(Span, Seq<char>)>)
    ensures
        x + Seq::<(Span, Seq<char>)>::empty() == x,
{
    assert(x + Seq::<(Span, Seq<char>)>::empty() =~= x);
}

/// The comma loop of `params_x`; the executable form of `spec_params_more`.
fn params_more_x(
    ts: &Vec<(Token, Span)>,
    eoi: Span,
    acc: Vec<String>,
    i: usize,
    errs: &mut Vec<Error>,
) -> (r: Option<(Vec<String>, usize)>)
    ensures
        ({
            let s = spec_params_more(ts@, eoi, names_view(acc@), i as int);
            &&& errs_view(final(errs)@) == errs_view(old(errs)@) + s.errs
            &&& match (r, s.res) {
                (Some(p), Some(q)) => names_view(p.0@) == q.0 && p.1 as int == q.1,
                (None, None) => true,
                _ => false,
            }
        }),
    decreases ts@.len() - i, 0int,
{
    let ghost errs0 = errs@;
    if i < ts.len() && ts[i].0.is_ctrl(',') {
        if i + 1 < ts.len() && ts[i + 1].0.is_ctrl(')') {
            proof {
                lemma_cat_unit(errs_view(errs0));
            }
            Some((acc, i + 2))
        } else if i + 1 < ts.len() && matches!(ts[i + 1].0, Token::Ident(_)) {
            let name = match &ts[i + 1].0 {
                Token::Ident(n) => n.clone(),
                _ => unreached(),
            };
            let mut acc2 = acc;
            let ghost accv = names_view(acc2@);
            acc2.push(name);
            proof {
                assert(names_view(acc2@) =~= accv.push(ident_at(ts@, i as int + 1)));
            }
            params_more_x(ts, eoi, acc2, i + 2, errs)
        } else {
            push_unexpected(ts, eoi, i + 1, errs);
            None
        }
    } else if i < ts.len() && ts[i].0.is_ctrl(')') {
        proof {
            lemma_cat_unit(errs_view(errs0));
        }
        Some((acc, i + 1))
    } else {
        push_unexpected(ts, eoi, i, errs);
        None
    }
}

/// The first entry whose name already appeared earlier; the executable form
/// of `spec_first_dup`.
fn find_dup_x(acc: &Vec<(String, Func)>) -> (r: Option<usize>)
    ensures
        match spec_first_dup(entries_view(acc@), 0) {
            Some(k) => r matches Some(x) && x as int == k && k < acc@.len(),
            None => r is None,
        },
{
    let ghost accv = entries_view(acc@);
    let n = acc.len();
    let mut k: usize = 0;
    while k < n
        invariant
            n == acc@.len(),
            accv == entries_view(acc@),
            accv.len() == n,
            k <= n,
            spec_first_dup(accv, 0) == spec_first_dup(accv, k as int),
        decreases n - k,
    {
        let mut j: usize = 0;
        let mut found = false;
        while j < k
            invariant
                n == acc@.len(),
                accv == entries_view(acc@),
                accv.len() == n,
                j <= k < n,
                found ==> contains_name(accv, k as int, accv[k as int].0),
                !found ==> forall|q: int| 0 <= q < j ==> accv[q].0 != accv[k as int].0,
            decreases k - j,
        {
            proof {
                assert(accv[j as int] == (acc@[j as int].0@, func_view(acc@[j as int].1)));
                assert(accv[k as int] == (acc@[k as int].0@, func_view(acc@[k as int].1)));
            }
            if acc[j].0 == acc[k].0 {
                found = true;
            }
            j = j + 1;
        }
        if found {
            return Some(k);
        }
        proof {
            assert(!contains_name(accv, k as int, accv[k as int].0));
        }
        k = k + 1;
    }
    None
}

/// Parses a whole program's function definitions; the executable form of
/// `spec_parse_funcs`.
fn funcs_rec(
    ts: &Vec<(Token, Span)>,
    eoi: Span,
    i: usize,
    acc: Vec<(String, Func)>,
    spans: Vec<Span>,
    errs: &mut Vec<Error>,
) -> (r: Option<Vec<(String, Func)>>)
    requires
        acc@.len() == spans@.len(),
    ensures
        ({
            let s = spec_parse_funcs(ts@, eoi, i as int, entries_view(acc@), spans@);
            &&& errs_view(final(errs)@) == errs_view(old(errs)@) + s.errs
            &&& match (r, s.res) {
                (Some(v), Some(es)) => entries_view(v@) == es,
                (None, None) => true,
                _ => false,
            }
        }),
    decreases ts@.len() - i,
{
    let ghost errs0 = errs@;
    let ghost accv = entries_view(acc@);
    let n = ts.len();
    if i >= n {
        match find_dup_x(&acc) {
            Some(k) => {
                let mut m = "Function '".to_owned();
                m.append(acc[k].0.as_str());
                m.append("' already exists");
                let ghost kk = k as int;
                proof {
                    assert(accv[kk] == (acc@[kk].0@, func_view(acc@[kk].1)));
                    assert(m@ == dup_msg(accv[kk].0));
                }
                errs.push(Error { span: spans[k], msg: m });
                proof {
                    assert(errs_view(errs@) =~= errs_view(errs0) + seq![
                        (spans@[kk], dup_msg(accv[kk].0)),
                    ]);
                }
                None
            },
            None => {
                proof {
                    lemma_cat_unit(errs_view(errs0));
                }
                Some(acc)
            },
        }
    } else if !matches!(ts[i].0, Token::Fn) {
        push_unexpected(ts, eoi, i, errs);
        None
    } else if !(i + 1 < n && matches!(ts[i + 1].0, Token::Ident(_))) {
        push_unexpected(ts, eoi, i + 1, errs);
        None
    } else if !(i + 2 < n && ts[i + 2].0.is_ctrl('(')) {
        push_unexpected(ts, eoi, i + 2, errs);
        None
    } else {
        let p = params_x(ts, eoi, i + 3, errs);
        let ghost s_p = spec_params(ts@, eoi, i as int + 3);
        match p {
            None => None,
            Some((params, q)) => {
                let q2 = crate::parsers::expr::step_x(ts, i + 2, q);
                let b = crate::parsers::expr::block_x(ts, eoi, q2, errs);
                let ghost s_b = spec_block(ts@, eoi, q2 as int);
                proof {
                    lemma_errs_assoc(errs_view(errs0), s_p.errs, s_b.errs);
                }
                match b {
                    None => None,
                    Some((body, m)) => {
                        let name = match &ts[i + 1].0 {
                            Token::Ident(nm) => nm.clone(),
                            _ => unreached(),
                        };
                        let f = Func { args: params, body };
                        let ghost fv = func_view(f);
                        let mut acc2 = acc;
                        acc2.push((name, f));
                        let mut spans2 = spans;
                        spans2.push(ts[i + 1].1);
                        proof {
                            lemma_entries_view_push(acc@, acc2@.last());
                            assert(entries_view(acc2@) =~= accv.push(
                                (ident_at(ts@, i as int + 1), fv),
                            ));
                        }
                        let m2 = crate::parsers::expr::step_x(ts, i, m);
                        let r = funcs_rec(ts, eoi, m2, acc2, spans2, errs);
                        proof {
                            lemma_errs_assoc(
                                errs_view(errs0) + s_p.errs,
                                s_b.errs,
                                spec_parse_funcs(
                                    ts@,
                                    eoi,
                                    m2 as int,
                                    accv.push((ident_at(ts@, i as int + 1), fv)),
                                    spans@.push(ts@[i as int + 1].1),
                                ).errs,
                            );
                            lemma_errs_assoc(
                                errs_view(errs0),
                                s_p.errs + s_b.errs,
                                spec_parse_funcs(
                                    ts@,
                                    eoi,
                                    m2 as int,
                                    accv.push((ident_at(ts@, i as int + 1), fv)),
                                    spans@.push(ts@[i as int + 1].1),
                                ).errs,
                            );
                            lemma_errs_assoc(errs_view(errs0), s_p.errs, s_b.errs);
                        }
                        r
                    },
                }
            },
        }
    }
}

/// Parses a whole program: a sequence of function definitions, duplicate
/// names rejected once all are parsed. Appends the diagnostics that
/// `spec_parse` describes and returns the table's entries in source order.
pub fn funcs_parser(ts: &Vec<(Token, Span)>, eoi: Span, errs: &mut Vec<Error>) -> (r: Option<
    Vec<(String, Func)>,
>)
    ensures
        ({
            let s = spec_parse(ts@, eoi);
            &&& errs_view(final(errs)@) == errs_view(old(errs)@) + s.errs
            &&& match (r, s.res) {
                (Some(v), Some(es)) => entries_view(v@) == es,
                (None, None) => true,
                _ => false,
            }
        }),
{
    proof {
        assert(entries_view(Seq::<(String, Func)>::empty()) =~= Seq::<(Seq<char>, FuncV)>::empty());
    }
    funcs_rec(ts, eoi, 0, Vec::new(), Vec::new(), errs)
}

/// Parses a token sequence into the program's function table. On success
/// (`Some`) the table holds every parsed definition under its name, in source
/// order with names unique; `None` is returned when the parse could not
/// re-synchronize or when two definitions share a name. In either case the
/// diagnostics are exactly those of `spec_parse`, in order.
pub fn parse(ts: &Vec<(Token, Span)>, eoi: Span) -> (r: (Option<FuncTable>, Vec<Error>))
    ensures
        ({
            let s = spec_parse(ts@, eoi);
            &&& errs_view(r.1@) == s.errs
            &&& match (r.0, s.res) {
                (Some(t), Some(es)) => t@ == es,
                (None, None) => true,
                _ => false,
            }
        }),
{
    let mut errs: Vec<Error> = Vec::new();
    proof {
        assert(errs_view(Seq::<Error>::empty()) =~= Seq::<(Span, Seq<char>)>::empty());
    }
    let fr = funcs_parser(ts, eoi, &mut errs);
    proof {
        assert(Seq::<(Span, Seq<char>)>::empty() + spec_parse(ts@, eoi).errs =~= spec_parse(
            ts@,
            eoi,
        ).errs);
    }
    match fr {
        Some(v) => (Some(FuncTable::from_entries(v)), errs),
        None => (None, errs),
    }
}


// ---------------------------------------------------------------------------
// An error-free parse builds an error-free table
// ---------------------------------------------------------------------------
/// A failed parameter list leaves a diagnostic.
proof fn lemma_params_errs(ts: Seq<(Token, Span)>, eoi: Span, i: int)
    ensures
        spec_params(ts, eoi, i).res is None ==> spec_params(ts, eoi, i).errs.len() > 0,
    decreases ts.len() - i, 1int,
{
    if !at_ctrl(ts, i, ')') && at_ident(ts, i) {
        lemma_params_more_errs(ts, eoi, seq![ident_at(ts, i)], i + 1);
    }
}

/// A failed parameter-list continuation leaves a diagnostic.
proof fn lemma_params_more_errs(ts: Seq<(Token, Span)>, eoi: Span, acc: Seq<Seq<char>>, i: int)
    ensures
        spec_params_more(ts, eoi, acc, i).res is None ==> spec_params_more(
            ts,
            eoi,
            acc,
            i,
        ).errs.len() > 0,
    decreases ts.len() - i, 0int,
{
    if at_ctrl(ts, i, ',') && !at_ctrl(ts, i + 1, ')') && at_ident(ts, i + 1) {
        lemma_params_more_errs(ts, eoi, acc.push(ident_at(ts, i + 1)), i + 2);
    }
}

/// The heart of the cleanliness law, threading the entries collected so far.
proof fn lemma_funcs_clean(
    ts: Seq<(Token, Span)>,
    eoi: Span,
    i: int,
    acc: Seq<(Seq<char>, FuncV)>,
    spans: Seq<Span>,
)
    requires
        crate::interpreter::table_no_error(acc),
    ensures
        ({
            let s = spec_parse_funcs(ts, eoi, i, acc, spans);
            &&& s.res is None ==> s.errs.len() > 0
            &&& (s.res is Some && s.errs.len() == 0) ==> crate::interpreter::table_no_error(
                s.res->0,
            )
        }),
    decreases ts.len() - i,
{
    if 0 <= i < ts.len() && ts[i].0 is Fn && at_ident(ts, i + 1) && at_ctrl(ts, i + 2, '(') {
        lemma_params_errs(ts, eoi, i + 3);
        let p = spec_params(ts, eoi, i + 3);
        match p.res {
            None => {},
            Some((params, q)) => {
                let q2 = step(ts, i + 2, q);
                crate::parsers::expr::lemma_block_clean(ts, eoi, q2);
                let b = spec_block(ts, eoi, q2);
                match b.res {
                    None => {},
                    Some((body, m)) => {
                        if p.errs.len() == 0 && b.errs.len() == 0 {
                            let fv = FuncV { args: params, body };
                            let acc2 = acc.push((ident_at(ts, i + 1), fv));
                            assert(crate::interpreter::table_no_error(acc2)) by {
                                assert(forall|k: int|
                                    0 <= k < acc.len() ==> #[trigger] acc2[k] == acc[k]);
                                assert(acc2[acc.len() as int] == (ident_at(ts, i + 1), fv));
                            }
                            lemma_funcs_clean(
                                ts,
                                eoi,
                                step(ts, i, m),
                                acc2,
                                spans.push(span_at(ts, eoi, i + 1)),
                            );
                        }
                    },
                }
            },
        }
    }
}

/// Law: when parsing reports no diagnostics, the table it produced holds no
/// parse-error placeholder nodes, so the evaluator's precondition is met by
/// the pipeline's rule of evaluating only after an error-free parse; and a
/// parse that produces no table always reports at least one diagnostic.
pub proof fn lemma_parse_clean(ts: Seq<(Token, Span)>, eoi: Span)
    ensures
        spec_parse(ts, eoi).res is None ==> spec_parse(ts, eoi).errs.len() > 0,
        (spec_parse(ts, eoi).res is Some && spec_parse(ts, eoi).errs.len() == 0)
            ==> crate::interpreter::table_no_error(spec_parse(ts, eoi).res->0),
{
    assert(crate::interpreter::table_no_error(Seq::<(Seq<char>, FuncV)>::empty()));
    lemma_funcs_clean(ts, eoi, 0, Seq::empty(), Seq::empty());
}

} // verus!
