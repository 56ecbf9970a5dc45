use crate::span::{Span, Spanned};
use crate::tokens::{Token, TokenV};
use crate::Error;
use vstd::prelude::*;
use vstd::string::StrSliceExecFns;

verus! {

broadcast use vstd::std_specs::vec::group_vec_axioms, vstd::seq::group_seq_axioms;

// ---------------------------------------------------------------------------
// Character classes
// ---------------------------------------------------------------------------
/// Whitespace: separates tokens and is otherwise discarded.
pub open spec fn is_ws_char(c: char) -> bool {
    c == ' ' || c == '\t' || c == '\r' || c == '\n'
}

/// A decimal digit.
pub open spec fn is_digit_char(c: char) -> bool {
    48 <= c as u32 <= 57
}

/// A character that may start an identifier or keyword.
pub open spec fn is_ident_start_char(c: char) -> bool {
    (65 <= c as u32 <= 90) || (97 <= c as u32 <= 122) || c == '_'
}

/// A character that may continue an identifier or keyword.
pub open spec fn is_ident_char(c: char) -> bool {
    is_ident_start_char(c) || is_digit_char(c)
}

/// A single-character operator.
pub open spec fn is_op_char(c: char) -> bool {
    c == '+' || c == '-' || c == '*' || c == '/' || c == '%' || c == '=' || c == '<' || c == '>'
}

/// A control character: each is its own token.
pub open spec fn is_ctrl_char(c: char) -> bool {
    c == '(' || c == ')' || c == '{' || c == '}' || c == '[' || c == ']' || c == ';' || c == ','
        || c == ':'
}

/// The two-character operators, attempted before their single-character
/// prefixes so `==` is not mis-tokenized as two `=`.
pub open spec fn is_two_char_op(a: char, b: char) -> bool {
    (a == '=' && b == '=') || (a == '!' && b == '=') || (a == '<' && b == '=') || (a == '>' && b
        == '=') || (a == '&' && b == '&') || (a == '|' && b == '|')
}

// ---------------------------------------------------------------------------
// Maximal-run ends
// ---------------------------------------------------------------------------
/// The first position at or after `i` that holds a newline, or the text's end.
pub open spec fn line_end(s: Seq<char>, i: int) -> int
    decreases s.len() - i,
{
    if 0 <= i < s.len() && s[i] != '\n' {
        line_end(s, i + 1)
    } else {
        i
    }
}

/// The end of the maximal digit run starting at `i`.
pub open spec fn num_end(s: Seq<char>, i: int) -> int
    decreases s.len() - i,
{
    if 0 <= i < s.len() && is_digit_char(s[i]) {
        num_end(s, i + 1)
    } else {
        i
    }
}

/// The end of the maximal identifier-character run starting at `i`.
pub open spec fn ident_end(s: Seq<char>, i: int) -> int
    decreases s.len() - i,
{
    if 0 <= i < s.len() && is_ident_char(s[i]) {
        ident_end(s, i + 1)
    } else {
        i
    }
}

pub proof fn lemma_line_end(s: Seq<char>, i: int)
    requires
        0 <= i <= s.len(),
    ensures
        i <= line_end(s, i) <= s.len(),
        i < s.len() && s[i] != '\n' ==> line_end(s, i) > i,
    decreases s.len() - i,
{
    if 0 <= i < s.len() && s[i] != '\n' {
        lemma_line_end(s, i + 1);
    }
}

pub proof fn lemma_num_end(s: Seq<char>, i: int)
    requires
        0 <= i <= s.len(),
    ensures
        i <= num_end(s, i) <= s.len(),
        i < s.len() && is_digit_char(s[i]) ==> num_end(s, i) > i,
    decreases s.len() - i,
{
    if 0 <= i < s.len() && is_digit_char(s[i]) {
        lemma_num_end(s, i + 1);
    }
}

pub proof fn lemma_ident_end(s: Seq<char>, i: int)
    requires
        0 <= i <= s.len(),
    ensures
        i <= ident_end(s, i) <= s.len(),
        i < s.len() && is_ident_char(s[i]) ==> ident_end(s, i) > i,
    decreases s.len() - i,
{
    if 0 <= i < s.len() && is_ident_char(s[i]) {
        lemma_ident_end(s, i + 1);
    }
}

// ---------------------------------------------------------------------------
// The specification lexer
// ---------------------------------------------------------------------------
/// A span over character offsets `i..j`.
pub open spec fn sp(i: int, j: int) -> Span {
    Span { start: i as usize, end: j as usize }
}

/// Maps the reserved spellings to their keyword token; every other word is an
/// identifier.
pub open spec fn classify_word(w: Seq<char>) -> TokenV {
    if w == "fn"@ {
        TokenV::Fn
    } else if w == "var"@ {
        TokenV::Var
    } else if w == "return"@ {
        TokenV::Return
    } else if w == "if"@ {
        TokenV::If
    } else if w == "else"@ {
        TokenV::Else
    } else {
        TokenV::Ident(w)
    }
}

/// The tokens and lex-error spans of `s` from position `i` on. Longest match
/// first within each class; a comment runs from `//` through the terminating
/// newline (included in its span, excluded from its text) or the end of the
/// text; an unrecognized character becomes an error span and is skipped, so
/// lexing never stops early.
pub open spec fn spec_lex(s: Seq<char>, i: int) -> (Seq<(TokenV, Span)>, Seq<Span>)
    decreases s.len() - i,
    via spec_lex_dec
{
    if !(0 <= i < s.len()) {
        (Seq::empty(), Seq::empty())
    } else {
        let c = s[i];
        if is_ws_char(c) {
            spec_lex(s, i + 1)
        } else if c == '/' && i + 1 < s.len() && s[i + 1] == '/' {
            let j = line_end(s, i);
            let e = if j < s.len() {
                j + 1
            } else {
                j
            };
            let rest = spec_lex(s, e);
            (seq![(TokenV::Comment(s.subrange(i, j)), sp(i, e))] + rest.0, rest.1)
        } else if is_digit_char(c) {
            let j = num_end(s, i);
            let rest = spec_lex(s, j);
            (seq![(TokenV::Num(s.subrange(i, j)), sp(i, j))] + rest.0, rest.1)
        } else if i + 1 < s.len() && is_two_char_op(c, s[i + 1]) {
            let rest = spec_lex(s, i + 2);
            (seq![(TokenV::Op(s.subrange(i, i + 2)), sp(i, i + 2))] + rest.0, rest.1)
        } else if is_op_char(c) {
            let rest = spec_lex(s, i + 1);
            (seq![(TokenV::Op(seq![c]), sp(i, i + 1))] + rest.0, rest.1)
        } else if is_ctrl_char(c) {
            let rest = spec_lex(s, i + 1);
            (seq![(TokenV::Ctrl(c), sp(i, i + 1))] + rest.0, rest.1)
        } else if is_ident_start_char(c) {
            let j = ident_end(s, i);
            let rest = spec_lex(s, j);
            (seq![(classify_word(s.subrange(i, j)), sp(i, j))] + rest.0, rest.1)
        } else {
            let rest = spec_lex(s, i + 1);
            (rest.0, seq![sp(i, i + 1)] + rest.1)
        }
    }
}

#[via_fn]
proof fn spec_lex_dec(s: Seq<char>, i: int) {
    if 0 <= i < s.len() {
        lemma_line_end(s, i);
        lemma_num_end(s, i);
        lemma_ident_end(s, i);
    }
}

/// The image of a token sequence.
pub open spec fn toks_view(ts: Seq<(Token, Span)>) -> Seq<(TokenV, Span)> {
    ts.map_values(|p: (Token, Span)| (p.0@, p.1))
}

/// The spans of a diagnostic sequence.
pub open spec fn err_spans(es: Seq<Error>) -> Seq<Span> {
    es.map_values(|e: Error| e.span)
}

// ---------------------------------------------------------------------------
// Executable helpers
// ---------------------------------------------------------------------------
fn is_ws(c: char) -> (r: bool)
    ensures
        r == is_ws_char(c),
{
    c == ' ' || c == '\t' || c == '\r' || c == '\n'
}

pub(crate) fn is_digit(c: char) -> (r: bool)
    ensures
        r == is_digit_char(c),
{
    let u = c as u32;
    48 <= u && u <= 57
}

fn is_ident_start(c: char) -> (r: bool)
    ensures
        r == is_ident_start_char(c),
{
    let u = c as u32;
    (65 <= u && u <= 90) || (97 <= u && u <= 122) || c == '_'
}

fn is_ident(c: char) -> (r: bool)
    ensures
        r == is_ident_char(c),
{
    is_ident_start(c) || is_digit(c)
}

fn is_op(c: char) -> (r: bool)
    ensures
        r == is_op_char(c),
{
    c == '+' || c == '-' || c == '*' || c == '/' || c == '%' || c == '=' || c == '<' || c == '>'
}

fn is_ctrl(c: char) -> (r: bool)
    ensures
        r == is_ctrl_char(c),
{
    c == '(' || c == ')' || c == '{' || c == '}' || c == '[' || c == ']' || c == ';' || c == ','
        || c == ':'
}

fn is_two_op(a: char, b: char) -> (r: bool)
    ensures
        r == is_two_char_op(a, b),
{
    (a == '=' && b == '=') || (a == '!' && b == '=') || (a == '<' && b == '=') || (a == '>' && b
        == '=') || (a == '&' && b == '&') || (a == '|' && b == '|')
}

/// Text equality of two string slices.
pub fn str_eq(a: &str, b: &str) -> (r: bool)
    ensures
        r == (a@ == b@),
{
    a.to_owned() == b.to_owned()
}

/// The characters of `s`, in order.
pub(crate) fn chars_vec(s: &str) -> (v: Vec<char>)
    ensures
        v@ == s@,
{
    broadcast use vstd::string::next_postcondition, vstd::string::axiom_spec_iter;

    let mut it = s.chars();
    let mut v: Vec<char> = Vec::new();
    loop
        invariant
            vstd::std_specs::iter::IteratorSpec::obeys_prophetic_iter_laws(&it),
            vstd::std_specs::iter::IteratorSpec::decrease(&it) is Some,
            v@ + vstd::std_specs::iter::IteratorSpec::remaining(&it) == s@,
        decreases vstd::std_specs::iter::IteratorSpec::decrease(&it)->0,
    {
        match it.next() {
            Some(c) => {
                v.push(c);
                proof {
                    assert(v@ + vstd::std_specs::iter::IteratorSpec::remaining(&it) =~= s@);
                }
            },
            None => {
                proof {
                    assert(v@ =~= s@);
                }
                return v;
            },
        }
    }
}

// ---------------------------------------------------------------------------
// The lexer
// ---------------------------------------------------------------------------
/// Converts source text into a sequence of spanned tokens plus a list of lex
/// errors, exactly as `spec_lex` describes.
///
/// Lexing is total: every input yields a token sequence (the first component
/// is always `Some`), and an unrecognized character is reported as an error at
/// its span and skipped rather than stopping the rest of the file from
/// producing tokens.
pub fn lex(src: &str) -> (r: (Option<Vec<(Token, Span)>>, Vec<Error>))
    ensures
        r.0 matches Some(toks) && toks_view(toks@) == spec_lex(src@, 0).0,
        err_spans(r.1@) == spec_lex(src@, 0).1,
        forall|k: int|
            0 <= k < r.1@.len() ==> (#[trigger] r.1@[k]).msg@ == "unrecognized character"@,
{
    let chars = chars_vec(src);
    let n = chars.len();
    let mut toks: Vec<(Token, Span)> = Vec::new();
    let mut errs: Vec<Error> = Vec::new();
    let mut i: usize = 0;
    while i < n
        invariant
            n == chars.len(),
            chars@ == src@,
            i <= n,
            spec_lex(src@, 0).0 == toks_view(toks@) + spec_lex(src@, i as int).0,
            spec_lex(src@, 0).1 == err_spans(errs@) + spec_lex(src@, i as int).1,
            forall|k: int|
                0 <= k < errs@.len() ==> (#[trigger] errs@[k]).msg@ == "unrecognized character"@,
        decreases n - i,
    {
        let ghost i0 = i as int;
        let ghost toks0 = toks@;
        let ghost errs0 = errs@;
        let c = chars[i];
        if is_ws(c) {
            i = i + 1;
        } else if c == '/' && i + 1 < n && chars[i + 1] == '/' {
            // comment: through the end of the line
            let mut j = i;
            while j < n && chars[j] != '\n'
                invariant
                    n == chars.len(),
                    chars@ == src@,
                    i <= j <= n,
                    line_end(src@, i as int) == line_end(src@, j as int),
                decreases n - j,
            {
                j = j + 1;
            }
            let text = src.substring_char(i, j).to_owned();
            let e = if j < n {
                j + 1
            } else {
                j
            };
            toks.push((Token::Comment(text), Span { start: i, end: e }));
            proof {
                lemma_push_tok(toks0, (Token::Comment(text), Span { start: i0 as usize, end: e as usize }));
                lemma_step(spec_lex(src@, 0).0, toks_view(toks0),
                    (TokenV::Comment(src@.subrange(i0, j as int)), sp(i0, e as int)),
                    spec_lex(src@, e as int).0);
            }
            i = e;
        } else if is_digit(c) {
            let mut j = i;
            while j < n && is_digit(chars[j])
                invariant
                    n == chars.len(),
                    chars@ == src@,
                    i <= j <= n,
                    num_end(src@, i as int) == num_end(src@, j as int),
                decreases n - j,
            {
                j = j + 1;
            }
            let text = src.substring_char(i, j).to_owned();
            toks.push((Token::Num(text), Span { start: i, end: j }));
            proof {
                lemma_push_tok(toks0, (Token::Num(text), Span { start: i0 as usize, end: j as usize }));
                lemma_step(spec_lex(src@, 0).0, toks_view(toks0),
                    (TokenV::Num(src@.subrange(i0, j as int)), sp(i0, j as int)),
                    spec_lex(src@, j as int).0);
            }
            i = j;
        } else if i + 1 < n && is_two_op(c, chars[i + 1]) {
            let text = src.substring_char(i, i + 2).to_owned();
            toks.push((Token::Op(text), Span { start: i, end: i + 2 }));
            proof {
                lemma_push_tok(toks0, (Token::Op(text), Span { start: i0 as usize, end: (i0 + 2) as usize }));
                lemma_step(spec_lex(src@, 0).0, toks_view(toks0),
                    (TokenV::Op(src@.subrange(i0, i0 + 2)), sp(i0, i0 + 2)),
                    spec_lex(src@, i0 + 2).0);
            }
            i = i + 2;
        } else if is_op(c) {
            let text = src.substring_char(i, i + 1).to_owned();
            toks.push((Token::Op(text), Span { start: i, end: i + 1 }));
            proof {
                assert(src@.subrange(i0, i0 + 1) =~= seq![c]);
                lemma_push_tok(toks0, (Token::Op(text), Span { start: i0 as usize, end: (i0 + 1) as usize }));
                lemma_step(spec_lex(src@, 0).0, toks_view(toks0),
                    (TokenV::Op(seq![c]), sp(i0, i0 + 1)),
                    spec_lex(src@, i0 + 1).0);
            }
            i = i + 1;
        } else if is_ctrl(c) {
            toks.push((Token::Ctrl(c), Span { start: i, end: i + 1 }));
            proof {
                lemma_push_tok(toks0, (Token::Ctrl(c), Span { start: i0 as usize, end: (i0 + 1) as usize }));
                lemma_step(spec_lex(src@, 0).0, toks_view(toks0),
                    (TokenV::Ctrl(c), sp(i0, i0 + 1)),
                    spec_lex(src@, i0 + 1).0);
            }
            i = i + 1;
        } else if is_ident_start(c) {
            let mut j = i;
            while j < n && is_ident(chars[j])
                invariant
                    n == chars.len(),
                    chars@ == src@,
                    i <= j <= n,
                    ident_end(src@, i as int) == ident_end(src@, j as int),
                decreases n - j,
            {
                j = j + 1;
            }
            let word = src.substring_char(i, j).to_owned();
            let tok = if str_eq(word.as_str(), "fn") {
                Token::Fn
            } else if str_eq(word.as_str(), "var") {
                Token::Var
            } else if str_eq(word.as_str(), "return") {
                Token::Return
            } else if str_eq(word.as_str(), "if") {
                Token::If
            } else if str_eq(word.as_str(), "else") {
                Token::Else
            } else {
                Token::Ident(word)
            };
            toks.push((tok, Span { start: i, end: j }));
            proof {
                assert(toks@.last().0@ == classify_word(src@.subrange(i0, j as int)));
                lemma_push_tok(toks0, toks@.last());
                lemma_step(spec_lex(src@, 0).0, toks_view(toks0),
                    (classify_word(src@.subrange(i0, j as int)), sp(i0, j as int)),
                    spec_lex(src@, j as int).0);
            }
            i = j;
        } else {
            errs.push(Error { span: Span { start: i, end: i + 1 }, msg: "unrecognized character".to_owned() });
            proof {
                lemma_push_err(errs0, errs@.last());
                lemma_step_err(spec_lex(src@, 0).1, err_spans(errs0), sp(i0, i0 + 1),
                    spec_lex(src@, i0 + 1).1);
            }
            i = i + 1;
        }
    }
    (Some(toks), errs)
}

/// Pushing a token extends the sequence image by the token's image.
proof fn lemma_push_tok(ts: Seq<(Token, Span)>, t: (Token, Span))
    ensures
        toks_view(ts.push(t)) == toks_view(ts) + seq![(t.0@, t.1)],
{
    assert(toks_view(ts.push(t)) =~= toks_view(ts) + seq![(t.0@, t.1)]);
}

/// Pushing a diagnostic extends the span image by its span.
proof fn lemma_push_err(es: Seq<Error>, e: Error)
    ensures
        err_spans(es.push(e)) == err_spans(es) + seq![e.span],
{
    assert(err_spans(es.push(e)) =~= err_spans(es) + seq![e.span]);
}

/// Associativity step for the main loop's token invariant.
proof fn lemma_step(
    total: Seq<(TokenV, Span)>,
    done: Seq<(TokenV, Span)>,
    t: (TokenV, Span),
    rest: Seq<(TokenV, Span)>,
)
    requires
        total == done + (seq![t] + rest),
    ensures
        total == (done + seq![t]) + rest,
{
    assert(done + (seq![t] + rest) =~= (done + seq![t]) + rest);
}

/// Associativity step for the main loop's error invariant.
proof fn lemma_step_err(total: Seq<Span>, done: Seq<Span>, s: Span, rest: Seq<Span>)
    requires
        total == done + (seq![s] + rest),
    ensures
        total == (done + seq![s]) + rest,
{
    assert(done + (seq![s] + rest) =~= (done + seq![s]) + rest);
}


// ---------------------------------------------------------------------------
// Lexing a concatenation
// ---------------------------------------------------------------------------
/// A span moved right by `d` characters.
pub open spec fn shift_span(sp2: Span, d: int) -> Span {
    Span { start: (sp2.start + d) as usize, end: (sp2.end + d) as usize }
}

/// A token sequence with every span moved right by `d`.
pub open spec fn shift_tokens(ts: Seq<(TokenV, Span)>, d: int) -> Seq<(TokenV, Span)> {
    ts.map_values(|p: (TokenV, Span)| (p.0, shift_span(p.1, d)))
}

/// Error spans moved right by `d`.
pub open spec fn shift_spans(es: Seq<Span>, d: int) -> Seq<Span> {
    es.map_values(|sp2: Span| shift_span(sp2, d))
}

proof fn lemma_shift_tokens_cat(x: Seq<(TokenV, Span)>, y: Seq<(TokenV, Span)>, d: int)
    ensures
        shift_tokens(x + y, d) == shift_tokens(x, d) + shift_tokens(y, d),
{
    assert(shift_tokens(x + y, d) =~= shift_tokens(x, d) + shift_tokens(y, d));
}

proof fn lemma_shift_spans_cat(x: Seq<Span>, y: Seq<Span>, d: int)
    ensures
        shift_spans(x + y, d) == shift_spans(x, d) + shift_spans(y, d),
{
    assert(shift_spans(x + y, d) =~= shift_spans(x, d) + shift_spans(y, d));
}

proof fn lemma_line_end_shift(a: Seq<char>, b: Seq<char>, j: int)
    requires
        0 <= j <= b.len(),
    ensures
        line_end(a + b, a.len() + j) == a.len() + line_end(b, j),
    decreases b.len() - j,
{
    if j < b.len() {
        assert((a + b)[a.len() + j] == b[j]);
        if b[j] != '\n' {
            lemma_line_end_shift(a, b, j + 1);
        }
    }
}

proof fn lemma_num_end_shift(a: Seq<char>, b: Seq<char>, j: int)
    requires
        0 <= j <= b.len(),
    ensures
        num_end(a + b, a.len() + j) == a.len() + num_end(b, j),
    decreases b.len() - j,
{
    if j < b.len() {
        assert((a + b)[a.len() + j] == b[j]);
        if is_digit_char(b[j]) {
            lemma_num_end_shift(a, b, j + 1);
        }
    }
}

proof fn lemma_ident_end_shift(a: Seq<char>, b: Seq<char>, j: int)
    requires
        0 <= j <= b.len(),
    ensures
        ident_end(a + b, a.len() + j) == a.len() + ident_end(b, j),
    decreases b.len() - j,
{
    if j < b.len() {
        assert((a + b)[a.len() + j] == b[j]);
        if is_ident_char(b[j]) {
            lemma_ident_end_shift(a, b, j + 1);
        }
    }
}

/// Lexing the tail of a concatenation, from the boundary on, is lexing the
/// second fragment alone with every span shifted.
proof fn lemma_lex_suffix(a: Seq<char>, b: Seq<char>, j: int)
    requires
        0 <= j <= b.len(),
        a.len() + b.len() <= usize::MAX,
    ensures
        spec_lex(a + b, a.len() + j).0 == shift_tokens(spec_lex(b, j).0, a.len() as int),
        spec_lex(a + b, a.len() + j).1 == shift_spans(spec_lex(b, j).1, a.len() as int),
    decreases b.len() - j,
{
    let s = a + b;
    let n = a.len() as int;
    if j >= b.len() {
        assert(spec_lex(s, n + j).0 =~= shift_tokens(spec_lex(b, j).0, n));
        assert(spec_lex(s, n + j).1 =~= shift_spans(spec_lex(b, j).1, n));
    } else {
        assert(s[n + j] == b[j]);
        let c = b[j];
        if is_ws_char(c) {
            lemma_lex_suffix(a, b, j + 1);
        } else if c == '/' && j + 1 < b.len() && b[j + 1] == '/' {
            assert(s[n + j + 1] == b[j + 1]);
            lemma_line_end_shift(a, b, j);
            lemma_line_end(b, j);
            let je = line_end(b, j);
            let e = if je < b.len() { je + 1 } else { je };
            lemma_lex_suffix(a, b, e);
            assert(s.subrange(n + j, n + je) =~= b.subrange(j, je));
            lemma_shift_tokens_cat(
                seq![(TokenV::Comment(b.subrange(j, je)), sp(j, e))],
                spec_lex(b, e).0,
                n,
            );
            assert(spec_lex(s, n + j).0 =~= shift_tokens(spec_lex(b, j).0, n));
        } else if is_digit_char(c) {
            lemma_num_end_shift(a, b, j);
            lemma_num_end(b, j);
            let je = num_end(b, j);
            lemma_lex_suffix(a, b, je);
            assert(s.subrange(n + j, n + je) =~= b.subrange(j, je));
            lemma_shift_tokens_cat(
                seq![(TokenV::Num(b.subrange(j, je)), sp(j, je))],
                spec_lex(b, je).0,
                n,
            );
            assert(spec_lex(s, n + j).0 =~= shift_tokens(spec_lex(b, j).0, n));
        } else if j + 1 < b.len() && is_two_char_op(c, b[j + 1]) {
            assert(s[n + j + 1] == b[j + 1]);
            lemma_lex_suffix(a, b, j + 2);
            assert(s.subrange(n + j, n + j + 2) =~= b.subrange(j, j + 2));
            lemma_shift_tokens_cat(
                seq![(TokenV::Op(b.subrange(j, j + 2)), sp(j, j + 2))],
                spec_lex(b, j + 2).0,
                n,
            );
            assert(spec_lex(s, n + j).0 =~= shift_tokens(spec_lex(b, j).0, n));
        } else if is_op_char(c) {
            assert(!(n + j + 1 < s.len() && is_two_char_op(c, s[n + j + 1]))) by {
                if n + j + 1 < s.len() {
                    assert(s[n + j + 1] == b[j + 1]);
                }
            }
            lemma_lex_suffix(a, b, j + 1);
            lemma_shift_tokens_cat(seq![(TokenV::Op(seq![c]), sp(j, j + 1))], spec_lex(b, j + 1).0, n);
            assert(spec_lex(s, n + j).0 =~= shift_tokens(spec_lex(b, j).0, n));
        } else if is_ctrl_char(c) {
            assert(!(n + j + 1 < s.len() && is_two_char_op(c, s[n + j + 1]))) by {
                if n + j + 1 < s.len() {
                    assert(s[n + j + 1] == b[j + 1]);
                }
            }
            lemma_lex_suffix(a, b, j + 1);
            lemma_shift_tokens_cat(seq![(TokenV::Ctrl(c), sp(j, j + 1))], spec_lex(b, j + 1).0, n);
            assert(spec_lex(s, n + j).0 =~= shift_tokens(spec_lex(b, j).0, n));
        } else if is_ident_start_char(c) {
            assert(!(n + j + 1 < s.len() && is_two_char_op(c, s[n + j + 1]))) by {
                if n + j + 1 < s.len() {
                    assert(s[n + j + 1] == b[j + 1]);
                }
            }
            lemma_ident_end_shift(a, b, j);
            lemma_ident_end(b, j);
            let je = ident_end(b, j);
            lemma_lex_suffix(a, b, je);
            assert(s.subrange(n + j, n + je) =~= b.subrange(j, je));
            lemma_shift_tokens_cat(
                seq![(classify_word(b.subrange(j, je)), sp(j, je))],
                spec_lex(b, je).0,
                n,
            );
            assert(spec_lex(s, n + j).0 =~= shift_tokens(spec_lex(b, j).0, n));
        } else {
            assert(!(n + j + 1 < s.len() && is_two_char_op(c, s[n + j + 1]))) by {
                if n + j + 1 < s.len() {
                    assert(s[n + j + 1] == b[j + 1]);
                }
            }
            lemma_lex_suffix(a, b, j + 1);
            lemma_shift_spans_cat(seq![sp(j, j + 1)], spec_lex(b, j + 1).1, n);
            assert(spec_lex(s, n + j).1 =~= shift_spans(spec_lex(b, j).1, n));
        }
    }
}

proof fn lemma_line_end_prefix(a: Seq<char>, b: Seq<char>, i: int)
    requires
        0 <= i < a.len(),
        a.last() == '\n',
    ensures
        line_end(a + b, i) == line_end(a, i),
        i <= line_end(a, i) < a.len(),
    decreases a.len() - i,
{
    assert((a + b)[i] == a[i]);
    if a[i] != '\n' {
        lemma_line_end_prefix(a, b, i + 1);
    }
}

proof fn lemma_num_end_prefix(a: Seq<char>, b: Seq<char>, i: int)
    requires
        0 <= i < a.len(),
        a.last() == '\n',
    ensures
        num_end(a + b, i) == num_end(a, i),
        i <= num_end(a, i) < a.len(),
    decreases a.len() - i,
{
    assert((a + b)[i] == a[i]);
    if is_digit_char(a[i]) {
        lemma_num_end_prefix(a, b, i + 1);
    }
}

proof fn lemma_ident_end_prefix(a: Seq<char>, b: Seq<char>, i: int)
    requires
        0 <= i < a.len(),
        a.last() == '\n',
    ensures
        ident_end(a + b, i) == ident_end(a, i),
        i <= ident_end(a, i) < a.len(),
    decreases a.len() - i,
{
    assert((a + b)[i] == a[i]);
    if is_ident_char(a[i]) {
        lemma_ident_end_prefix(a, b, i + 1);
    }
}

/// Lexing a concatenation from inside the first fragment: each token of the
/// first fragment is produced unchanged (a trailing newline keeps every token
/// from straddling the boundary), then the second fragment's tokens follow,
/// shifted.
proof fn lemma_lex_prefix(a: Seq<char>, b: Seq<char>, i: int)
    requires
        0 <= i <= a.len(),
        a.len() == 0 || a.last() == '\n',
        a.len() + b.len() <= usize::MAX,
    ensures
        spec_lex(a + b, i).0 == spec_lex(a, i).0 + shift_tokens(spec_lex(b, 0).0, a.len() as int),
        spec_lex(a + b, i).1 == spec_lex(a, i).1 + shift_spans(spec_lex(b, 0).1, a.len() as int),
    decreases a.len() - i,
{
    let s = a + b;
    let n = a.len() as int;
    let tb = shift_tokens(spec_lex(b, 0).0, n);
    let eb = shift_spans(spec_lex(b, 0).1, n);
    if i == n {
        lemma_lex_suffix(a, b, 0);
        assert(spec_lex(a, i).0 =~= Seq::<(TokenV, Span)>::empty());
        assert(spec_lex(a, i).1 =~= Seq::<Span>::empty());
        assert(spec_lex(a, i).0 + tb =~= tb);
        assert(spec_lex(a, i).1 + eb =~= eb);
    } else {
        assert(s[i] == a[i]);
        let c = a[i];
        // a non-whitespace character cannot be the last of `a`
        if !is_ws_char(c) {
            assert(i < n - 1) by {
                assert(a.last() == '\n');
            }
            assert(s[i + 1] == a[i + 1]);
        }
        if is_ws_char(c) {
            lemma_lex_prefix(a, b, i + 1);
        } else if c == '/' && i + 1 < a.len() && a[i + 1] == '/' {
            lemma_line_end_prefix(a, b, i);
            let je = line_end(a, i);
            let e = je + 1;
            assert(s.subrange(i, je) =~= a.subrange(i, je));
            lemma_lex_prefix(a, b, e);
            assert(seq![(TokenV::Comment(a.subrange(i, je)), sp(i, e))] + (spec_lex(a, e).0 + tb)
                =~= (seq![(TokenV::Comment(a.subrange(i, je)), sp(i, e))] + spec_lex(a, e).0) + tb);
        } else if is_digit_char(c) {
            lemma_num_end_prefix(a, b, i);
            lemma_num_end(a, i);
            let je = num_end(a, i);
            assert(s.subrange(i, je) =~= a.subrange(i, je));
            lemma_lex_prefix(a, b, je);
            assert(seq![(TokenV::Num(a.subrange(i, je)), sp(i, je))] + (spec_lex(a, je).0 + tb)
                =~= (seq![(TokenV::Num(a.subrange(i, je)), sp(i, je))] + spec_lex(a, je).0) + tb);
        } else if i + 1 < a.len() && is_two_char_op(c, a[i + 1]) {
            assert(s.subrange(i, i + 2) =~= a.subrange(i, i + 2));
            lemma_lex_prefix(a, b, i + 2);
            assert(seq![(TokenV::Op(a.subrange(i, i + 2)), sp(i, i + 2))] + (spec_lex(a, i + 2).0
                + tb) =~= (seq![(TokenV::Op(a.subrange(i, i + 2)), sp(i, i + 2))] + spec_lex(
                a,
                i + 2,
            ).0) + tb);
        } else if is_op_char(c) {
            lemma_lex_prefix(a, b, i + 1);
            assert(seq![(TokenV::Op(seq![c]), sp(i, i + 1))] + (spec_lex(a, i + 1).0 + tb) =~= (
            seq![(TokenV::Op(seq![c]), sp(i, i + 1))] + spec_lex(a, i + 1).0) + tb);
        } else if is_ctrl_char(c) {
            lemma_lex_prefix(a, b, i + 1);
            assert(seq![(TokenV::Ctrl(c), sp(i, i + 1))] + (spec_lex(a, i + 1).0 + tb) =~= (
            seq![(TokenV::Ctrl(c), sp(i, i + 1))] + spec_lex(a, i + 1).0) + tb);
        } else if is_ident_start_char(c) {
            lemma_ident_end_prefix(a, b, i);
            lemma_ident_end(a, i);
            let je = ident_end(a, i);
            assert(s.subrange(i, je) =~= a.subrange(i, je));
            lemma_lex_prefix(a, b, je);
            assert(seq![(classify_word(a.subrange(i, je)), sp(i, je))] + (spec_lex(a, je).0 + tb)
                =~= (seq![(classify_word(a.subrange(i, je)), sp(i, je))] + spec_lex(a, je).0) + tb);
        } else {
            lemma_lex_prefix(a, b, i + 1);
            assert(seq![sp(i, i + 1)] + (spec_lex(a, i + 1).1 + eb) =~= (seq![sp(i, i + 1)]
                + spec_lex(a, i + 1).1) + eb);
        }
    }
}

/// Law: re-lexing the concatenation of two fragments, each independently free
/// of lex errors, yields the concatenation of their token sequences — the
/// second fragment's spans shifted by the first fragment's length — and no
/// errors, provided no token can straddle the boundary. This statement
/// secures the boundary by asking that the first fragment end with a newline
/// (an empty first fragment also qualifies): without some such proviso the
/// claim fails, since for instance `"="` and `"="` each lex cleanly to one
/// `=` token, yet their concatenation lexes to a single `==` token.
pub proof fn lemma_lex_concat(a: Seq<char>, b: Seq<char>)
    requires
        spec_lex(a, 0).1 == Seq::<Span>::empty(),
        spec_lex(b, 0).1 == Seq::<Span>::empty(),
        a.len() == 0 || a.last() == '\n',
        a.len() + b.len() <= usize::MAX,
    ensures
        spec_lex(a + b, 0).0 == spec_lex(a, 0).0 + shift_tokens(spec_lex(b, 0).0, a.len() as int),
        spec_lex(a + b, 0).1 == Seq::<Span>::empty(),
{
    lemma_lex_prefix(a, b, 0);
    assert(shift_spans(Seq::<Span>::empty(), a.len() as int) =~= Seq::<Span>::empty());
    assert(Seq::<Span>::empty() + Seq::<Span>::empty() =~= Seq::<Span>::empty());
}

} // verus!
