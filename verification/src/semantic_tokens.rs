use crate::lexer::{lex, spec_lex, toks_view};
use crate::span::Span;
use crate::tokens::{Token, TokenV};
use crate::Error;
use vstd::prelude::*;
use vstd::string::StringExecFns;

verus! {

broadcast use vstd::std_specs::vec::group_vec_axioms, vstd::seq::group_seq_axioms;

/// A position in a document: zero-based line and character offset.
#[derive(Clone, Copy, Debug, PartialEq, Eq, Structural)]
pub struct Position {
    pub line: u32,
    pub character: u32,
}

/// A range in a document.
#[derive(Clone, Copy, Debug, PartialEq, Eq, Structural)]
pub struct Range {
    pub start: Position,
    pub end: Position,
}

/// A highlight-classified token: the index of its highlight category in the
/// session's token-type legend, and its location.
#[derive(Clone, Copy, Debug, PartialEq, Eq, Structural)]
pub struct RangedTokenType {
    /// token type index
    pub token_type: u32,
    /// token location
    pub range: Range,
}

/// A highlight record in the editor protocol's relative encoding: positions
/// are deltas against the previous record.
#[derive(Clone, Copy, Debug, PartialEq, Eq, Structural)]
pub struct SemanticToken {
    pub delta_line: u32,
    pub delta_start: u32,
    pub length: u32,
    pub token_type: u32,
    pub token_modifiers_bitset: u32,
}

/// The highlight category of a token, if it has one: keywords, identifiers,
/// numbers, operators and comments are highlighted; control characters are
/// not.
pub open spec fn spec_token_type(t: TokenV) -> Option<Seq<char>> {
    match t {
        TokenV::Var | TokenV::Fn | TokenV::If | TokenV::Else | TokenV::Return => Some("keyword"@),
        TokenV::Ident(_) => Some("variable"@),
        TokenV::Num(_) => Some("number"@),
        TokenV::Op(_) => Some("operator"@),
        TokenV::Comment(_) => Some("comment"@),
        TokenV::Ctrl(_) => None,
    }
}

/// The highlight category name of a token, if it has one.
pub fn to_token_type(token: &Token) -> (r: Option<String>)
    ensures
        match spec_token_type(token@) {
            Some(w) => r matches Some(s) && s@ == w,
            None => r is None,
        },
{
    match token {
        Token::Var | Token::Fn | Token::If | Token::Else | Token::Return => Some(
            "keyword".to_owned(),
        ),
        Token::Ident(_) => Some("variable".to_owned()),
        Token::Num(_) => Some("number".to_owned()),
        Token::Op(_) => Some("operator".to_owned()),
        Token::Comment(_) => Some("comment".to_owned()),
        Token::Ctrl(_) => None,
    }
}

/// A record whose range does not end before it starts (on its line).
pub open spec fn rtt_wf(t: RangedTokenType) -> bool {
    t.range.start.character <= t.range.end.character
}

/// The absolute encoding of the first highlight record.
pub open spec fn spec_semantic_token(t: RangedTokenType) -> SemanticToken {
    SemanticToken {
        delta_line: t.range.start.line,
        delta_start: t.range.start.character,
        length: (t.range.end.character - t.range.start.character) as u32,
        token_type: t.token_type,
        token_modifiers_bitset: 0,
    }
}

/// The relative encoding of a later highlight record against its predecessor:
/// the character delta is taken only within one line, and an impossible delta
/// falls back to the absolute character offset.
pub open spec fn spec_semantic_token_from(cur: RangedTokenType, pre: RangedTokenType)
    -> SemanticToken {
    SemanticToken {
        delta_line: (cur.range.end.line - pre.range.start.line) as u32,
        delta_start: if pre.range.end.line != cur.range.start.line {
            cur.range.start.character
        } else if cur.range.start.character >= pre.range.start.character {
            (cur.range.start.character - pre.range.start.character) as u32
        } else {
            cur.range.start.character
        },
        length: if cur.range.end.character >= cur.range.start.character {
            (cur.range.end.character - cur.range.start.character) as u32
        } else {
            cur.range.end.character
        },
        token_type: cur.token_type,
        token_modifiers_bitset: 0,
    }
}

impl RangedTokenType {
    /// initial semantic token
    pub fn semantic_token(&self) -> (r: SemanticToken)
        requires
            rtt_wf(*self),
        ensures
            r == spec_semantic_token(*self),
    {
        SemanticToken {
            delta_line: self.range.start.line,
            delta_start: self.range.start.character,
            length: self.range.end.character - self.range.start.character,
            token_type: self.token_type,
            token_modifiers_bitset: 0,
        }
    }

    /// delta semantic token
    pub fn semantic_token_from(&self, pre: RangedTokenType) -> (r: SemanticToken)
        requires
            pre.range.start.line <= self.range.end.line,
        ensures
            r == spec_semantic_token_from(*self, pre),
    {
        SemanticToken {
            delta_line: self.range.end.line - pre.range.start.line,
            delta_start: if pre.range.end.line != self.range.start.line {
                self.range.start.character
            } else {
                match self.range.start.character.checked_sub(pre.range.start.character) {
                    Some(d) => d,
                    None => self.range.start.character,
                }
            },
            length: match self.range.end.character.checked_sub(self.range.start.character) {
                Some(d) => d,
                None => self.range.end.character,
            },
            token_type: self.token_type,
            token_modifiers_bitset: 0,
        }
    }
}

/// Converts absolute highlight records to the protocol's relative encoding:
/// the first record is encoded absolutely, every later one as a delta against
/// its predecessor.
pub fn to_semantic_tokens(types: Vec<RangedTokenType>) -> (r: Vec<SemanticToken>)
    requires
        types@.len() > 0,
        rtt_wf(types@[0]),
        forall|k: int|
            1 <= k < types@.len() ==> (#[trigger] types@[k]).range.end.line >= types@[
                k - 1
            ].range.start.line,
    ensures
        r@.len() == types@.len(),
        r@[0] == spec_semantic_token(types@[0]),
        forall|k: int|
            1 <= k < types@.len() ==> r@[k] == spec_semantic_token_from(
                types@[k],
                #[trigger] types@[k - 1],
            ),
{
    let n = types.len();
    let mut out: Vec<SemanticToken> = Vec::new();
    out.push(types[0].semantic_token());
    let mut k: usize = 1;
    while k < n
        invariant
            n == types@.len(),
            n > 0,
            1 <= k <= n,
            forall|q: int|
                1 <= q < n ==> (#[trigger] types@[q]).range.end.line >= types@[
                    q - 1
                ].range.start.line,
            out@.len() == k,
            out@[0] == spec_semantic_token(types@[0]),
            forall|q: int|
                1 <= q < k ==> out@[q] == spec_semantic_token_from(
                    types@[q],
                    #[trigger] types@[q - 1],
                ),
        decreases n - k,
    {
        out.push(types[k].semantic_token_from(types[k - 1]));
        k = k + 1;
    }
    out
}


// ---------------------------------------------------------------------------
// Per-line analysis
// ---------------------------------------------------------------------------
/// The images of a list of strings.
pub open spec fn strings_view(ss: Seq<String>) -> Seq<Seq<char>> {
    ss.map_values(|a: String| a@)
}

/// The position of a category name in the session's token-type legend: the
/// first entry that spells `w`, if any.
pub open spec fn legend_index(legend: Seq<Seq<char>>, w: Seq<char>) -> Option<int>
    decreases legend.len(),
{
    if legend.len() == 0 {
        None
    } else if legend[0] == w {
        Some(0)
    } else {
        match legend_index(legend.drop_first(), w) {
            Some(ix) => Some(ix + 1),
            None => None,
        }
    }
}

proof fn lemma_legend_index_hit(legend: Seq<Seq<char>>, w: Seq<char>, i: int)
    requires
        0 <= i < legend.len(),
        legend[i] == w,
        forall|j: int| 0 <= j < i ==> legend[j] != w,
    ensures
        legend_index(legend, w) == Some(i),
    decreases i,
{
    if i > 0 {
        assert(forall|j: int|
            0 <= j < i - 1 ==> #[trigger] legend.drop_first()[j] == legend[j + 1]);
        lemma_legend_index_hit(legend.drop_first(), w, i - 1);
    }
}

proof fn lemma_legend_index_miss(legend: Seq<Seq<char>>, w: Seq<char>)
    requires
        forall|j: int| 0 <= j < legend.len() ==> legend[j] != w,
    ensures
        legend_index(legend, w) is None,
    decreases legend.len(),
{
    if legend.len() > 0 {
        assert(forall|j: int|
            0 <= j < legend.len() - 1 ==> #[trigger] legend.drop_first()[j] == legend[j + 1]);
        lemma_legend_index_miss(legend.drop_first(), w);
    }
}

/// The position of a category name in the legend; the executable form of
/// `legend_index`.
fn legend_find(legend: &Vec<String>, w: &str) -> (r: Option<usize>)
    ensures
        match legend_index(strings_view(legend@), w@) {
            Some(ix) => r matches Some(x) && x as int == ix,
            None => r is None,
        },
{
    let ghost lv = strings_view(legend@);
    let n = legend.len();
    let mut i: usize = 0;
    while i < n
        invariant
            n == legend@.len(),
            lv == strings_view(legend@),
            i <= n,
            forall|j: int| 0 <= j < i ==> lv[j] != w@,
        decreases n - i,
    {
        proof {
            assert(lv[i as int] == legend@[i as int]@);
        }
        if crate::lexer::str_eq(legend[i].as_str(), w) {
            proof {
                lemma_legend_index_hit(lv, w@, i as int);
            }
            return Some(i);
        }
        i = i + 1;
    }
    proof {
        lemma_legend_index_miss(lv, w@);
    }
    None
}

/// A highlight record for a token of line `ln` whose category sits at `ix` in
/// the legend.
pub open spec fn rtt_of(ln: int, sp2: Span, ix: int) -> RangedTokenType {
    RangedTokenType {
        token_type: ix as u32,
        range: Range {
            start: Position { line: ln as u32, character: sp2.start as u32 },
            end: Position { line: ln as u32, character: sp2.end as u32 },
        },
    }
}

/// The highlight records of one line's token sequence: each token that has a
/// highlight category found in the legend becomes a record; the others (and
/// any category the legend lacks) are skipped.
pub open spec fn line_ranged(
    toks: Seq<(TokenV, Span)>,
    ln: int,
    legend: Seq<Seq<char>>,
) -> Seq<RangedTokenType>
    decreases toks.len(),
{
    if toks.len() == 0 {
        Seq::empty()
    } else {
        let rest = line_ranged(toks.drop_first(), ln, legend);
        match spec_token_type(toks[0].0) {
            Some(w) => match legend_index(legend, w) {
                Some(ix) => seq![rtt_of(ln, toks[0].1, ix)] + rest,
                None => rest,
            },
            None => rest,
        }
    }
}

/// The highlight records of one line; the executable form of `line_ranged`.
fn line_ranged_x(toks: &Vec<(Token, Span)>, ln: u32, legend: &Vec<String>) -> (r: Vec<
    RangedTokenType,
>)
    ensures
        r@ == line_ranged(toks_view(toks@), ln as int, strings_view(legend@)),
{
    let ghost tv = toks_view(toks@);
    let ghost lv = strings_view(legend@);
    let n = toks.len();
    let mut out: Vec<RangedTokenType> = Vec::new();
    let mut i: usize = 0;
    proof {
        assert(tv.subrange(0, n as int) =~= tv);
        assert(out@ + line_ranged(tv, ln as int, lv) =~= line_ranged(tv, ln as int, lv));
    }
    while i < n
        invariant
            n == toks@.len(),
            n == tv.len(),
            tv == toks_view(toks@),
            lv == strings_view(legend@),
            i <= n,
            line_ranged(tv, ln as int, lv) == out@ + line_ranged(
                tv.subrange(i as int, n as int),
                ln as int,
                lv,
            ),
        decreases n - i,
    {
        proof {
            assert(tv[i as int] == (toks@[i as int].0@, toks@[i as int].1));
            assert(tv.subrange(i as int, n as int)[0] == tv[i as int]);
            assert(tv.subrange(i as int, n as int).drop_first() =~= tv.subrange(
                i as int + 1,
                n as int,
            ));
        }
        let ghost rest = line_ranged(tv.subrange(i as int + 1, n as int), ln as int, lv);
        match to_token_type(&toks[i].0) {
            Some(cat) => {
                match legend_find(legend, cat.as_str()) {
                    Some(ix) => {
                        let ghost out0 = out@;
                        out.push(
                            RangedTokenType {
                                token_type: ix as u32,
                                range: Range {
                                    start: Position { line: ln, character: toks[i].1.start as u32 },
                                    end: Position { line: ln, character: toks[i].1.end as u32 },
                                },
                            },
                        );
                        proof {
                            assert(out@.last() == rtt_of(ln as int, toks@[i as int].1, ix as int));
                            assert(out0 + (seq![out@.last()] + rest) =~= (out0 + seq![out@.last()])
                                + rest);
                            assert(out0 + seq![out@.last()] =~= out@);
                        }
                    },
                    None => {},
                }
            },
            None => {},
        }
        i = i + 1;
    }
    proof {
        assert(tv.subrange(n as int, n as int) =~= Seq::<(TokenV, Span)>::empty());
        assert(out@ + Seq::<RangedTokenType>::empty() =~= out@);
    }
    out
}

/// The lex-error spans of one line, tagged with its line number.
pub open spec fn tag_line(spans: Seq<Span>, ln: int) -> Seq<(u32, Span)> {
    spans.map_values(|sp2: Span| (ln as u32, sp2))
}

/// The highlight records and lex diagnostics of a whole document, given as
/// its lines (without terminators) and the session's token-type legend, from
/// line `k` on. Each line is lexed with a newline restored at its end.
pub open spec fn spec_analyze(lines: Seq<Seq<char>>, legend: Seq<Seq<char>>, k: int) -> (
    Seq<RangedTokenType>,
    Seq<(u32, Span)>,
)
    decreases lines.len() - k,
{
    if !(0 <= k < lines.len()) {
        (Seq::empty(), Seq::empty())
    } else {
        let lx = spec_lex(lines[k].push('\n'), 0);
        let rest = spec_analyze(lines, legend, k + 1);
        (line_ranged(lx.0, k, legend) + rest.0, tag_line(lx.1, k) + rest.1)
    }
}

/// Converts a document to highlight records and per-line lex diagnostics:
/// each line is lexed on its own (with its newline restored), its tokens are
/// classified by `to_token_type` and mapped through the legend, and its lex
/// errors are tagged with the line number. Exactly `spec_analyze` over the
/// lines and the legend.
pub fn analyze_src(lines: &Vec<String>, legend: &Vec<String>) -> (r: (
    Vec<RangedTokenType>,
    Vec<(u32, Error)>,
))
    requires
        lines@.len() <= u32::MAX,
    ensures
        ({
            let s = spec_analyze(strings_view(lines@), strings_view(legend@), 0);
            &&& r.0@ == s.0
            &&& r.1@.len() == s.1.len()
            &&& forall|q: int|
                0 <= q < s.1.len() ==> (#[trigger] r.1@[q]).0 == s.1[q].0 && r.1@[q].1.span
                    == s.1[q].1 && r.1@[q].1.msg@ == "unrecognized character"@
        }),
{
    let ghost linesv = strings_view(lines@);
    let ghost lv = strings_view(legend@);
    let ghost total = spec_analyze(linesv, lv, 0);
    let n = lines.len();
    let mut out: Vec<RangedTokenType> = Vec::new();
    let mut errs: Vec<(u32, Error)> = Vec::new();
    let mut k: usize = 0;
    proof {
        assert(out@ + total.0 =~= total.0);
    }
    while k < n
        invariant
            n == lines@.len(),
            n <= u32::MAX,
            linesv == strings_view(lines@),
            lv == strings_view(legend@),
            total == spec_analyze(linesv, lv, 0),
            k <= n,
            total.0 == out@ + spec_analyze(linesv, lv, k as int).0,
            errs@.len() + spec_analyze(linesv, lv, k as int).1.len() == total.1.len(),
            forall|q: int|
                0 <= q < errs@.len() ==> (#[trigger] errs@[q]).0 == total.1[q].0 && errs@[q].1.span
                    == total.1[q].1 && errs@[q].1.msg@ == "unrecognized character"@,
            forall|q: int|
                errs@.len() <= q < total.1.len() ==> #[trigger] total.1[q] == spec_analyze(
                    linesv,
                    lv,
                    k as int,
                ).1[q - errs@.len()],
        decreases n - k,
    {
        let ghost sub = spec_analyze(linesv, lv, k as int);
        let ghost subn = spec_analyze(linesv, lv, k as int + 1);
        let mut owned = lines[k].clone();
        owned.append("\n");
        proof {
            reveal_strlit("\n");
            assert(owned@ =~= linesv[k as int].push('\n'));
        }
        let (ltoks, lerrs) = lex(owned.as_str());
        let ltoks = match ltoks {
            Some(t) => t,
            None => Vec::new(),
        };
        let mut ranged = line_ranged_x(&ltoks, k as u32, legend);
        let ghost out0 = out@;
        out.append(&mut ranged);
        proof {
            assert(out@ =~= out0 + line_ranged(spec_lex(linesv[k as int].push('\n'), 0).0,
                k as int, lv));
            assert(out0 + (line_ranged(spec_lex(linesv[k as int].push('\n'), 0).0, k as int, lv)
                + subn.0) =~= (out0 + line_ranged(
                spec_lex(linesv[k as int].push('\n'), 0).0,
                k as int,
                lv,
            )) + subn.0);
        }
        let ne = lerrs.len();
        let mut q: usize = 0;
        let ghost errs_base = errs@.len() as int;
        while q < ne
            invariant
                ne == lerrs@.len(),
                q <= ne,
                k < n,
                linesv == strings_view(lines@),
                n == lines@.len(),
                lv == strings_view(legend@),
                total == spec_analyze(linesv, lv, 0),
                errs_base == errs@.len() - q,
                forall|j: int|
                    0 <= j < lerrs@.len() ==> (#[trigger] lerrs@[j]).span == spec_lex(
                        linesv[k as int].push('\n'),
                        0,
                    ).1[j] && lerrs@[j].msg@ == "unrecognized character"@,
                spec_analyze(linesv, lv, k as int).1 =~= tag_line(
                    spec_lex(linesv[k as int].push('\n'), 0).1,
                    k as int,
                ) + spec_analyze(linesv, lv, k as int + 1).1,
                spec_lex(linesv[k as int].push('\n'), 0).1.len() == ne,
                errs@.len() + spec_analyze(linesv, lv, k as int).1.len() - q == total.1.len(),
                forall|j: int|
                    0 <= j < errs@.len() ==> (#[trigger] errs@[j]).0 == total.1[j].0 && errs@[
                        j
                    ].1.span == total.1[j].1 && errs@[j].1.msg@ == "unrecognized character"@,
                forall|j: int|
                    errs@.len() <= j < total.1.len() ==> #[trigger] total.1[j] == (tag_line(
                        spec_lex(linesv[k as int].push('\n'), 0).1,
                        k as int,
                    ) + spec_analyze(linesv, lv, k as int + 1).1)[j - errs_base],
            decreases ne - q,
        {
            let e = Error { span: lerrs[q].span, msg: lerrs[q].msg.clone() };
            errs.push((k as u32, e));
            q = q + 1;
        }
        k = k + 1;
    }
    proof {
        assert(spec_analyze(linesv, lv, n as int).0 =~= Seq::<RangedTokenType>::empty());
        assert(out@ + Seq::<RangedTokenType>::empty() =~= out@);
    }
    (out, errs)
}

} // verus!
