//! The format compiler and the line parser.
//!
//! A format description — either a bare token body or the full
//! `log_format [combined] '<body>';` directive — is compiled into an ordered
//! sequence of tokens: literal runs and `$name` field placeholders.  A
//! compiled format then replays against one raw log line, producing the
//! (field name, value) pairs whose values are the substrings bounded by the
//! literal runs.
//!
//! `format_spec` and `line_spec` state both algorithms mathematically; every
//! executable function here is proved against them.

use vstd::prelude::*;
use vstd::string::StringExecFns;

use crate::text::char_whitespace;
use crate::text::chars_string;
use crate::text::find_char;
use crate::text::find_char_from;
use crate::text::prefix_at;
use crate::text::starts_with;
use crate::text::lemma_find_char_bounds;
use crate::text::str_chars;
use crate::text::sub_string;

verus! {

/// Error from compiling a format description or parsing a line.
#[derive(Debug)]
pub struct ParseError(pub String);

impl ParseError {
    /// The error text, for reporting outside the library.
    pub fn message(&self) -> (m: String)
        ensures
            m@ == self.0@,
    {
        self.0.clone()
    }
}

/// One element of a compiled format: a run of fixed characters, or a named
/// field placeholder.
#[derive(Clone, Debug, PartialEq, Eq)]
pub enum LogToken {
    Str(String),
    Field(String),
}

/// Mathematical image of a token: the characters of a literal run, or of a
/// field name.
pub enum TokenModel {
    Lit(Seq<char>),
    Fld(Seq<char>),
}

impl View for LogToken {
    type V = TokenModel;

    open spec fn view(&self) -> TokenModel {
        match self {
            LogToken::Str(s) => TokenModel::Lit(s@),
            LogToken::Field(f) => TokenModel::Fld(f@),
        }
    }
}

/// The characters a token carries, literal text or field name.
pub open spec fn token_chars(t: TokenModel) -> Seq<char> {
    match t {
        TokenModel::Lit(s) => s,
        TokenModel::Fld(f) => f,
    }
}

/// A literal run is never empty; the compiler only produces such tokens and
/// the line parser relies on it.
pub open spec fn token_wf(t: TokenModel) -> bool {
    t is Lit ==> token_chars(t).len() > 0
}

pub open spec fn tokens_wf(ts: Seq<TokenModel>) -> bool {
    forall|i: int| 0 <= i < ts.len() ==> token_wf(#[trigger] ts[i])
}

/// The models of a token vector, in order.
pub open spec fn models(tokens: Seq<LogToken>) -> Seq<TokenModel> {
    tokens.map_values(|t: LogToken| t@)
}

pub open spec fn strings_view(s: Seq<String>) -> Seq<Seq<char>> {
    s.map_values(|x: String| x@)
}

/// Characters allowed in a `$name` field identifier.
pub open spec fn ident_char(c: char) -> bool {
    ('a' <= c && c <= 'z') || ('0' <= c && c <= '9') || c == '_'
}

/// End of the maximal identifier run starting at `i`.
pub open spec fn ident_end(s: Seq<char>, i: int) -> int
    decreases s.len() - i when 0 <= i <= s.len()
{
    if i < s.len() && ident_char(s[i]) {
        ident_end(s, i + 1)
    } else {
        i
    }
}

pub proof fn lemma_ident_end_bounds(s: Seq<char>, i: int)
    requires
        0 <= i <= s.len(),
    ensures
        i <= ident_end(s, i) <= s.len(),
    decreases s.len() - i,
{
    if i < s.len() && ident_char(s[i]) {
        lemma_ident_end_bounds(s, i + 1);
    }
}

/// End of the maximal whitespace run starting at `i`.
pub open spec fn ws_end(s: Seq<char>, i: int) -> int
    decreases s.len() - i when 0 <= i <= s.len()
{
    if i < s.len() && char_whitespace(s[i]) {
        ws_end(s, i + 1)
    } else {
        i
    }
}

pub proof fn lemma_ws_end_bounds(s: Seq<char>, i: int)
    requires
        0 <= i <= s.len(),
    ensures
        i <= ws_end(s, i) <= s.len(),
    decreases s.len() - i,
{
    if i < s.len() && char_whitespace(s[i]) {
        lemma_ws_end_bounds(s, i + 1);
    }
}

/// Puts one literal character in front of a token sequence, coalescing with
/// a leading literal run.
pub open spec fn prepend_lit(c: char, toks: Seq<TokenModel>) -> Seq<TokenModel> {
    if toks.len() > 0 && toks[0] is Lit {
        seq![TokenModel::Lit(seq![c] + token_chars(toks[0]))] + toks.drop_first()
    } else {
        seq![TokenModel::Lit(seq![c])] + toks
    }
}

/// The token body read from `i` up to the first `'` or the end of the
/// string: `$` starts a field identifier (empty identifiers fail), any other
/// character joins the current literal run.  A field placeholder followed
/// directly by another one fails here, at compilation: every field must be
/// bounded by a literal run or end the format.  Yields the tokens and the
/// index where scanning stopped.
pub open spec fn body_spec(s: Seq<char>, i: int) -> Option<(Seq<TokenModel>, int)>
    decreases s.len() - i when 0 <= i <= s.len() via body_spec_dec
{
    if i >= s.len() || s[i] == '\'' {
        Some((Seq::empty(), i))
    } else if s[i] == '$' {
        let j = ident_end(s, i + 1);
        if j == i + 1 {
            None
        } else {
            match body_spec(s, j) {
                None => None,
                Some((toks, e)) => {
                    if toks.len() > 0 && toks[0] is Fld {
                        None
                    } else {
                        Some((seq![TokenModel::Fld(s.subrange(i + 1, j))] + toks, e))
                    }
                },
            }
        }
    } else {
        match body_spec(s, i + 1) {
            None => None,
            Some((toks, e)) => Some((prepend_lit(s[i], toks), e)),
        }
    }
}

#[via_fn]
proof fn body_spec_dec(s: Seq<char>, i: int) {
    if 0 <= i <= s.len() && !(i >= s.len() || s[i] == '\'') && s[i] == '$' {
        lemma_ident_end_bounds(s, i + 1);
    }
}

pub proof fn lemma_body_spec_bounds(s: Seq<char>, i: int)
    requires
        0 <= i <= s.len(),
    ensures
        match body_spec(s, i) {
            None => true,
            Some((toks, e)) => i <= e <= s.len() && (e == s.len() || s[e] == '\''),
        },
    decreases s.len() - i,
{
    if i >= s.len() || s[i] == '\'' {
    } else if s[i] == '$' {
        let j = ident_end(s, i + 1);
        lemma_ident_end_bounds(s, i + 1);
        if j != i + 1 {
            lemma_body_spec_bounds(s, j);
        }
    } else {
        lemma_body_spec_bounds(s, i + 1);
    }
}

/// Every token the body scan yields is well formed.
pub proof fn lemma_body_spec_wf(s: Seq<char>, i: int)
    requires
        0 <= i <= s.len(),
    ensures
        match body_spec(s, i) {
            None => true,
            Some((toks, e)) => tokens_wf(toks),
        },
    decreases s.len() - i,
{
    if i >= s.len() || s[i] == '\'' {
    } else if s[i] == '$' {
        let j = ident_end(s, i + 1);
        lemma_ident_end_bounds(s, i + 1);
        if j != i + 1 {
            lemma_body_spec_wf(s, j);
            if body_spec(s, j) is Some {
                let (toks, e) = body_spec(s, j)->Some_0;
                let full = seq![TokenModel::Fld(s.subrange(i + 1, j))] + toks;
                assert forall|k: int| 0 <= k < full.len() implies token_wf(#[trigger] full[k]) by {
                    if k > 0 {
                        assert(full[k] == toks[k - 1]);
                    }
                }
            }
        }
    } else {
        lemma_body_spec_wf(s, i + 1);
        if body_spec(s, i + 1) is Some {
            let (toks, e) = body_spec(s, i + 1)->Some_0;
            let full = prepend_lit(s[i], toks);
            if toks.len() > 0 && toks[0] is Lit {
                assert forall|k: int| 0 <= k < full.len() implies token_wf(#[trigger] full[k]) by {
                    if k > 0 {
                        assert(full[k] == toks[k]);
                    }
                }
            } else {
                assert forall|k: int| 0 <= k < full.len() implies token_wf(#[trigger] full[k]) by {
                    if k > 0 {
                        assert(full[k] == toks[k - 1]);
                    }
                }
            }
        }
    }
}

/// No two field placeholders stand side by side: the invariant of every
/// compiled format.
pub open spec fn no_adjacent_fields(ts: Seq<TokenModel>) -> bool {
    forall|i: int| 0 <= i < ts.len() - 1 ==> !((#[trigger] ts[i]) is Fld && ts[i + 1] is Fld)
}

/// The body scan never yields two fields side by side.
pub proof fn lemma_body_spec_no_adjacent(s: Seq<char>, i: int)
    requires
        0 <= i <= s.len(),
    ensures
        match body_spec(s, i) {
            None => true,
            Some((toks, e)) => no_adjacent_fields(toks),
        },
    decreases s.len() - i,
{
    if i >= s.len() || s[i] == '\'' {
    } else if s[i] == '$' {
        let j = ident_end(s, i + 1);
        lemma_ident_end_bounds(s, i + 1);
        if j != i + 1 {
            lemma_body_spec_no_adjacent(s, j);
            if body_spec(s, j) is Some {
                let (toks, e) = body_spec(s, j)->Some_0;
                if !(toks.len() > 0 && toks[0] is Fld) {
                    let full = seq![TokenModel::Fld(s.subrange(i + 1, j))] + toks;
                    assert forall|k: int|
                        0 <= k < full.len() - 1 implies !((#[trigger] full[k]) is Fld && full[k
                        + 1] is Fld) by {
                        if k == 0 {
                            if toks.len() > 0 {
                                assert(full[1] == toks[0]);
                            }
                        } else {
                            assert(full[k] == toks[k - 1]);
                            assert(full[k + 1] == toks[k]);
                        }
                    }
                }
            }
        }
    } else {
        lemma_body_spec_no_adjacent(s, i + 1);
        if body_spec(s, i + 1) is Some {
            let (toks, e) = body_spec(s, i + 1)->Some_0;
            let full = prepend_lit(s[i], toks);
            if toks.len() > 0 && toks[0] is Lit {
                assert forall|k: int|
                    0 <= k < full.len() - 1 implies !((#[trigger] full[k]) is Fld && full[k + 1]
                    is Fld) by {
                    if k > 0 {
                        assert(full[k] == toks[k]);
                        assert(full[k + 1] == toks[k + 1]);
                    }
                }
            } else {
                assert forall|k: int|
                    0 <= k < full.len() - 1 implies !((#[trigger] full[k]) is Fld && full[k + 1]
                    is Fld) by {
                    if k > 0 {
                        assert(full[k] == toks[k - 1]);
                        assert(full[k + 1] == toks[k]);
                    }
                }
            }
        }
    }
}

/// Where a literal run diverges from the line: the length of the common
/// prefix of `t` and the line's text at `i`.
pub open spec fn mismatch_at(line: Seq<char>, i: int, t: Seq<char>, k: int) -> int
    decreases t.len() - k when 0 <= k <= t.len()
{
    if k < t.len() && i + k < line.len() && line[i + k] == t[k] {
        mismatch_at(line, i, t, k + 1)
    } else {
        k
    }
}

/// The report of a failing body scan from `i`: an empty placeholder name,
/// or two placeholders with nothing between them, whichever the
/// left-to-right scan meets first.  Empty on a successful scan.
pub open spec fn body_err(s: Seq<char>, i: int) -> Seq<char>
    decreases s.len() - i when 0 <= i <= s.len() via body_err_dec
{
    if i >= s.len() || s[i] == '\'' {
        Seq::empty()
    } else if s[i] == '$' {
        let j = ident_end(s, i + 1);
        if j == i + 1 {
            "Expected identifier"@
        } else if j < s.len() && s[j] == '$' {
            let j2 = ident_end(s, j + 1);
            if j2 == j + 1 {
                "Expected identifier"@
            } else {
                "No separator before field \""@ + s.subrange(j + 1, j2) + "\""@
            }
        } else {
            body_err(s, j)
        }
    } else {
        body_err(s, i + 1)
    }
}

#[via_fn]
proof fn body_err_dec(s: Seq<char>, i: int) {
    if 0 <= i <= s.len() && !(i >= s.len() || s[i] == '\'') && s[i] == '$' {
        lemma_ident_end_bounds(s, i + 1);
    }
}

/// `body_err` as the compiler's scan sees it mid-way: when the token just
/// recorded was a field and the cursor stands on `$` again, the report the
/// scan is about to give for that adjacency.
pub open spec fn pending_err(s: Seq<char>, pos: int, after_field: bool) -> Seq<char> {
    if after_field && 0 <= pos < s.len() && s[pos] == '$' {
        let j2 = ident_end(s, pos + 1);
        if j2 == pos + 1 {
            "Expected identifier"@
        } else {
            "No separator before field \""@ + s.subrange(pos + 1, j2) + "\""@
        }
    } else {
        body_err(s, pos)
    }
}

/// The whole format description: optional surrounding whitespace, an
/// optional `log_format` keyword with an optional `combined` name and
/// mandatory quotes around the body, an optional trailing `;`.  Without the
/// keyword the entire remainder is the body and must be consumed in full.
pub open spec fn format_spec(s: Seq<char>) -> Option<Seq<TokenModel>> {
    let i = ws_end(s, 0);
    if i >= s.len() {
        None
    } else if starts_with(s, i, "log_format"@) {
        let j1 = ws_end(s, i + "log_format"@.len());
        let j2 = if starts_with(s, j1, "combined"@) {
            ws_end(s, j1 + "combined"@.len())
        } else {
            j1
        };
        if j2 < s.len() && s[j2] == '\'' {
            match body_spec(s, j2 + 1) {
                None => None,
                Some((toks, e)) => {
                    if e < s.len() && s[e] == '\'' {
                        if e + 1 == s.len() {
                            Some(toks)
                        } else if s[e + 1] == ';' && ws_end(s, e + 2) == s.len() {
                            Some(toks)
                        } else {
                            None
                        }
                    } else {
                        None
                    }
                },
            }
        } else {
            None
        }
    } else {
        match body_spec(s, i) {
            None => None,
            Some((toks, e)) => {
                if e == s.len() {
                    Some(toks)
                } else {
                    None
                }
            },
        }
    }
}

/// The report of a failing compilation, mirroring `format_spec`'s
/// branches; empty on success.
pub open spec fn format_err(s: Seq<char>) -> Seq<char> {
    let i = ws_end(s, 0);
    if i >= s.len() {
        "Empty string"@
    } else if starts_with(s, i, "log_format"@) {
        let j1 = ws_end(s, i + "log_format"@.len());
        let j2 = if starts_with(s, j1, "combined"@) {
            ws_end(s, j1 + "combined"@.len())
        } else {
            j1
        };
        if j2 < s.len() && s[j2] == '\'' {
            match body_spec(s, j2 + 1) {
                None => body_err(s, j2 + 1),
                Some((toks, e)) => {
                    if e < s.len() && s[e] == '\'' {
                        if e + 1 == s.len() {
                            Seq::empty()
                        } else if s[e + 1] == ';' && ws_end(s, e + 2) == s.len() {
                            Seq::empty()
                        } else {
                            "Unexpected characters at the end"@
                        }
                    } else {
                        "Missing final '"@
                    }
                },
            }
        } else {
            "Missing '"@
        }
    } else {
        match body_spec(s, i) {
            None => body_err(s, i),
            Some((toks, e)) => {
                if e == s.len() {
                    Seq::empty()
                } else {
                    "Unexpected characters at the end"@
                }
            },
        }
    }
}

/// The field names of a token sequence, in declaration order, duplicates
/// kept.
pub open spec fn field_names(toks: Seq<TokenModel>) -> Seq<Seq<char>>
    decreases toks.len(),
{
    if toks.len() == 0 {
        Seq::empty()
    } else {
        match toks[0] {
            TokenModel::Fld(f) => seq![f] + field_names(toks.drop_first()),
            TokenModel::Lit(_) => field_names(toks.drop_first()),
        }
    }
}

pub proof fn lemma_field_names_push(toks: Seq<TokenModel>, t: TokenModel)
    ensures
        field_names(toks.push(t)) == field_names(toks) + (match t {
            TokenModel::Fld(f) => seq![f],
            TokenModel::Lit(_) => Seq::<Seq<char>>::empty(),
        }),
    decreases toks.len(),
{
    let p = toks.push(t);
    assert(p[toks.len() as int] == t);
    if toks.len() == 0 {
        assert(p.len() == 1);
        assert(p[0] == t);
        assert(p.drop_first() =~= Seq::<TokenModel>::empty());
        assert(field_names(p.drop_first()) =~= Seq::<Seq<char>>::empty());
        match t {
            TokenModel::Fld(f) => {
                assert(field_names(p) == seq![f] + field_names(p.drop_first()));
                assert(seq![f] + field_names(p.drop_first()) =~= seq![f]);
                assert(field_names(toks) + seq![f] =~= seq![f]);
            },
            TokenModel::Lit(_) => {
                assert(field_names(p) == field_names(p.drop_first()));
                assert(field_names(toks) + Seq::<Seq<char>>::empty() =~= Seq::<Seq<char>>::empty());
            },
        }
    } else {
        assert(p[0] == toks[0]);
        assert(p.drop_first() =~= toks.drop_first().push(t));
        lemma_field_names_push(toks.drop_first(), t);
        match toks[0] {
            TokenModel::Fld(f0) => {
                assert(field_names(p) == seq![f0] + field_names(toks.drop_first().push(t)));
                match t {
                    TokenModel::Fld(f) => {
                        assert(seq![f0] + (field_names(toks.drop_first()) + seq![f]) =~= (
                        seq![f0] + field_names(toks.drop_first())) + seq![f]);
                    },
                    TokenModel::Lit(_) => {
                        assert(seq![f0] + (field_names(toks.drop_first())
                            + Seq::<Seq<char>>::empty()) =~= (seq![f0] + field_names(
                            toks.drop_first(),
                        )) + Seq::<Seq<char>>::empty());
                    },
                }
            },
            TokenModel::Lit(_) => {
            },
        }
    }
}

pub proof fn lemma_models_push(ts: Seq<LogToken>, t: LogToken)
    ensures
        models(ts.push(t)) =~= models(ts).push(t@),
{
    let p = ts.push(t);
    assert forall|i: int| 0 <= i < p.len() implies models(p)[i] == models(ts).push(t@)[i] by {
        if i < ts.len() {
            assert(p[i] == ts[i]);
        } else {
            assert(p[i] == t);
        }
    }
}

/// Joins two token runs, coalescing a literal boundary.
pub open spec fn merge_tokens(a: Seq<TokenModel>, b: Seq<TokenModel>) -> Seq<TokenModel> {
    if a.len() > 0 && b.len() > 0 && a.last() is Lit && b[0] is Lit {
        a.drop_last() + seq![TokenModel::Lit(token_chars(a.last()) + token_chars(b[0]))]
            + b.drop_first()
    } else {
        a + b
    }
}

/// What appending one literal character does to an accumulated token run.
pub open spec fn push_char(a: Seq<TokenModel>, c: char) -> Seq<TokenModel> {
    if a.len() > 0 && a.last() is Lit {
        a.drop_last().push(TokenModel::Lit(token_chars(a.last()).push(c)))
    } else {
        a.push(TokenModel::Lit(seq![c]))
    }
}

pub proof fn lemma_merge_empty(a: Seq<TokenModel>)
    ensures
        merge_tokens(a, Seq::empty()) == a,
        merge_tokens(Seq::empty(), a) == a,
{
    assert(a + Seq::<TokenModel>::empty() =~= a);
    assert(Seq::<TokenModel>::empty() + a =~= a);
}

pub proof fn lemma_merge_push_char(a: Seq<TokenModel>, c: char, b: Seq<TokenModel>)
    ensures
        merge_tokens(a, prepend_lit(c, b)) == merge_tokens(push_char(a, c), b),
{
    let pb = prepend_lit(c, b);
    let pa = push_char(a, c);
    if a.len() > 0 && a.last() is Lit {
        let al = token_chars(a.last());
        if b.len() > 0 && b[0] is Lit {
            assert(pb[0] == TokenModel::Lit(seq![c] + token_chars(b[0])));
            assert(pb.drop_first() =~= b.drop_first());
            assert(pa.last() == TokenModel::Lit(al.push(c)));
            assert(pa.drop_last() =~= a.drop_last());
            assert(al + (seq![c] + token_chars(b[0])) =~= al.push(c) + token_chars(b[0]));
            assert(merge_tokens(a, pb) =~= merge_tokens(pa, b));
        } else {
            // pb = [Lit([c])] + b, whose head is a literal
            assert(pb[0] == TokenModel::Lit(seq![c]));
            assert(pb.drop_first() =~= b);
            assert(al + seq![c] =~= al.push(c));
            assert(merge_tokens(a, pb) == a.drop_last() + seq![TokenModel::Lit(al + seq![c])]
                + b);
            assert(pa.last() == TokenModel::Lit(al.push(c)));
            assert(pa.drop_last() =~= a.drop_last());
            if b.len() > 0 {
                assert(merge_tokens(pa, b) == pa + b);
                assert(pa =~= a.drop_last() + seq![TokenModel::Lit(al.push(c))]);
                assert(merge_tokens(a, pb) =~= merge_tokens(pa, b));
            } else {
                assert(merge_tokens(pa, b) == pa + b);
                assert(pa + b =~= pa);
                assert(merge_tokens(a, pb) =~= pa);
            }
        }
    } else {
        // pa = a.push(Lit([c])), whose last is a literal
        if b.len() > 0 && b[0] is Lit {
            assert(pb[0] == TokenModel::Lit(seq![c] + token_chars(b[0])));
            assert(pb.drop_first() =~= b.drop_first());
            assert(merge_tokens(a, pb) == a + pb);
            assert(pa.last() == TokenModel::Lit(seq![c]));
            assert(pa.drop_last() =~= a);
            assert(merge_tokens(pa, b) == a + seq![TokenModel::Lit(seq![c] + token_chars(b[0]))]
                + b.drop_first());
            assert(a + pb =~= a + seq![TokenModel::Lit(seq![c] + token_chars(b[0]))]
                + b.drop_first());
        } else {
            assert(pb =~= seq![TokenModel::Lit(seq![c])] + b);
            assert(merge_tokens(a, pb) == a + pb);
            if b.len() > 0 {
                assert(merge_tokens(pa, b) == pa + b);
                assert(a + pb =~= pa + b);
            } else {
                assert(merge_tokens(pa, b) == pa + b);
                assert(a + pb =~= pa + b);
            }
        }
    }
}

pub proof fn lemma_merge_push_field(a: Seq<TokenModel>, f: Seq<char>, b: Seq<TokenModel>)
    ensures
        merge_tokens(a, seq![TokenModel::Fld(f)] + b) == merge_tokens(
            a.push(TokenModel::Fld(f)),
            b,
        ),
{
    let pb = seq![TokenModel::Fld(f)] + b;
    let pa = a.push(TokenModel::Fld(f));
    assert(pb[0] == TokenModel::Fld(f));
    assert(merge_tokens(a, pb) == a + pb);
    assert(pa.last() == TokenModel::Fld(f));
    assert(merge_tokens(pa, b) == pa + b);
    assert(a + pb =~= pa + b);
}

/// The format compiler: a cursor over the description's characters and the
/// tokens built so far.
pub struct LogFormatParser {
    pub format: Vec<char>,
    pub pos: usize,
    pub tokens: Vec<LogToken>,
}

impl LogFormatParser {
    pub fn new(format: &str) -> (p: LogFormatParser)
        ensures
            p.format@ == format@,
            p.pos == 0,
            p.tokens@ =~= Seq::<LogToken>::empty(),
    {
        LogFormatParser { format: str_chars(format), pos: 0, tokens: Vec::new() }
    }

    /// Advances the cursor over whitespace.
    pub fn skip_whitespace(&mut self)
        requires
            old(self).pos <= old(self).format@.len(),
        ensures
            final(self).format == old(self).format,
            final(self).tokens == old(self).tokens,
            final(self).pos == ws_end(old(self).format@, old(self).pos as int),
            final(self).pos <= final(self).format@.len(),
    {
        proof {
            lemma_ws_end_bounds(self.format@, self.pos as int);
        }
        loop
            invariant
                self.format == old(self).format,
                self.tokens == old(self).tokens,
                self.pos <= self.format@.len(),
                ws_end(self.format@, old(self).pos as int) == ws_end(
                    self.format@,
                    self.pos as int,
                ),
            ensures
                self.format == old(self).format,
                self.tokens == old(self).tokens,
                self.pos == ws_end(self.format@, old(self).pos as int),
            decreases self.format@.len() - self.pos,
        {
            if self.pos >= self.format.len() {
                break;
            }
            if !crate::text::is_whitespace_char(self.format[self.pos]) {
                break;
            }
            self.pos = self.pos + 1;
        }
    }

    /// Consumes `s` if it stands at the cursor; otherwise leaves the cursor
    /// alone.
    pub fn maybe_consume(&mut self, s: &str) -> (r: bool)
        requires
            old(self).pos <= old(self).format@.len(),
        ensures
            final(self).format == old(self).format,
            final(self).tokens == old(self).tokens,
            final(self).pos <= final(self).format@.len(),
            if starts_with(old(self).format@, old(self).pos as int, s@) {
                r && final(self).pos == old(self).pos + s@.len()
            } else {
                !r && final(self).pos == old(self).pos
            },
    {
        let sv = str_chars(s);
        let n = self.format.len();
        if prefix_at(&self.format, self.pos, &sv) {
            proof {
                assert(self.pos + sv@.len() <= n);
            }
            self.pos = self.pos + sv.len();
            true
        } else {
            false
        }
    }

    /// Reads the maximal identifier run at the cursor; an empty run is an
    /// error.
    pub fn read_identifier(&mut self) -> (r: Result<String, ParseError>)
        requires
            old(self).pos <= old(self).format@.len(),
        ensures
            final(self).format == old(self).format,
            final(self).tokens == old(self).tokens,
            final(self).pos <= final(self).format@.len(),
            ({
                let j = ident_end(old(self).format@, old(self).pos as int);
                if j == old(self).pos {
                    r matches Err(e) && e.0@ == "Expected identifier"@ && final(self).pos == old(
                        self,
                    ).pos
                } else {
                    r matches Ok(name) && name@ == old(self).format@.subrange(
                        old(self).pos as int,
                        j,
                    ) && final(self).pos == j
                }
            }),
    {
        proof {
            lemma_ident_end_bounds(self.format@, self.pos as int);
        }
        let start = self.pos;
        loop
            invariant
                self.format == old(self).format,
                self.tokens == old(self).tokens,
                start == old(self).pos,
                start <= self.pos <= self.format@.len(),
                ident_end(self.format@, start as int) == ident_end(self.format@, self.pos as int),
            ensures
                self.format == old(self).format,
                self.tokens == old(self).tokens,
                start == old(self).pos,
                self.pos == ident_end(self.format@, start as int),
            decreases self.format@.len() - self.pos,
        {
            if self.pos >= self.format.len() {
                break;
            }
            let c = self.format[self.pos];
            if !(('a' <= c && c <= 'z') || ('0' <= c && c <= '9') || c == '_') {
                break;
            }
            self.pos = self.pos + 1;
        }
        if self.pos == start {
            return Err(ParseError(String::from_str("Expected identifier")));
        }
        Ok(sub_string(&self.format, start, self.pos))
    }

    /// Scans the token body from the cursor to the first `'` or the end,
    /// appending the tokens it reads; a field placeholder standing directly
    /// after another one is rejected here, at compilation.
    #[verifier::loop_isolation(false)]
    pub fn parse_format(&mut self) -> (r: Result<(), ParseError>)
        requires
            old(self).pos <= old(self).format@.len(),
        ensures
            final(self).format == old(self).format,
            final(self).pos <= final(self).format@.len(),
            match body_spec(old(self).format@, old(self).pos as int) {
                None => r matches Err(e) && e.0@ == body_err(
                    old(self).format@,
                    old(self).pos as int,
                ),
                Some((toks, e)) => r is Ok && final(self).pos == e && models(final(self).tokens@)
                    == models(old(self).tokens@) + toks,
            },
    {
        let ghost fmt = self.format@;
        let ghost p0 = self.pos as int;
        let ghost t0 = models(self.tokens@);
        let n = self.format.len();
        let mut cur: Vec<char> = Vec::new();
        let mut last_was_field: bool = false;
        let ghost mut added: Seq<TokenModel> = Seq::empty();
        proof {
            assert(t0 + added =~= t0);
            assert((added + pend(cur@)) =~= Seq::<TokenModel>::empty());
            lemma_merge_empty(body_toks(fmt, p0));
            lemma_body_spec_bounds(fmt, p0);
        }
        while self.pos < n && self.format[self.pos] != '\''
            invariant
                self.format == old(self).format,
                self.format@ == fmt,
                n == fmt.len(),
                self.pos <= fmt.len(),
                p0 <= self.pos,
                models(self.tokens@) == t0 + added,
                added.len() == 0 || added.last() is Fld,
                body_err(fmt, p0) == pending_err(
                    fmt,
                    self.pos as int,
                    last_was_field && cur@.len() == 0,
                ),
                ({
                    let b0 = body_spec(fmt, p0);
                    match body_spec(fmt, self.pos as int) {
                        None => b0 is None,
                        Some((toks, e)) => {
                            if last_was_field && cur@.len() == 0 && toks.len() > 0 && toks[0]
                                is Fld {
                                b0 is None
                            } else {
                                b0 matches Some((toks0, e0)) && e0 == e && toks0 == merge_tokens(
                                    added + pend(cur@),
                                    toks,
                                )
                            }
                        },
                    }
                }),
            decreases fmt.len() - self.pos,
        {
            proof {
                lemma_body_spec_bounds(fmt, self.pos as int);
            }
            let c = self.format[self.pos];
            let ghost q = self.pos as int;
            let ghost built = added + pend(cur@);
            if c == '$' {
                self.pos = self.pos + 1;
                proof {
                    lemma_ident_end_bounds(fmt, q + 1);
                }
                let name = match self.read_identifier() {
                    Ok(name) => name,
                    Err(e) => {
                        proof {
                            assert(body_spec(fmt, q) is None);
                            assert(body_err(fmt, p0) == "Expected identifier"@);
                        }
                        return Err(e);
                    },
                };
                let ghost j = ident_end(fmt, q + 1);
                let ghost nm = fmt.subrange(q + 1, j);
                if last_was_field && cur.len() == 0 {
                    // two placeholders with nothing between them: a
                    // compilation error, never left for parse time
                    proof {
                        if body_spec(fmt, q) is Some {
                            let (toksq, eq) = body_spec(fmt, q)->Some_0;
                            assert(toksq[0] == TokenModel::Fld(nm));
                        }
                        assert(body_spec(fmt, p0) is None);
                        assert(body_err(fmt, p0) == "No separator before field \""@ + nm
                            + "\""@);
                    }
                    let mut m = "No separator before field \"".to_owned();
                    m.append(name.as_str());
                    m.append("\"");
                    proof {
                        assert(m@ == "No separator before field \""@ + nm + "\""@);
                    }
                    return Err(ParseError(m));
                }
                let ghost added_snap = added;
                let ghost cur_snap = cur@;
                // flush the pending literal run, then record the field
                if cur.len() > 0 {
                    let lit = chars_string(&cur);
                    proof {
                        lemma_models_push(self.tokens@, LogToken::Str(lit));
                    }
                    self.tokens.push(LogToken::Str(lit));
                    cur = Vec::new();
                    proof {
                        assert(models(self.tokens@) =~= t0 + added_snap.push(
                            TokenModel::Lit(cur_snap),
                        ));
                        added = added_snap.push(TokenModel::Lit(cur_snap));
                    }
                }
                proof {
                    assert(models(self.tokens@) == t0 + added);
                    assert(added + pend(cur@) =~= built);
                }
                proof {
                    lemma_models_push(self.tokens@, LogToken::Field(name));
                }
                self.tokens.push(LogToken::Field(name));
                last_was_field = true;
                proof {
                    assert(name@ == nm);
                    assert(models(self.tokens@) =~= (t0 + added).push(TokenModel::Fld(nm)));
                    assert((t0 + added).push(TokenModel::Fld(nm)) =~= t0 + added.push(
                        TokenModel::Fld(nm),
                    ));
                    lemma_merge_push_field(built, nm, body_toks(fmt, j));
                    assert(added.push(TokenModel::Fld(nm)) =~= built.push(TokenModel::Fld(nm)));
                    added = built.push(TokenModel::Fld(nm));
                    assert(added + pend(cur@) =~= added);
                    if body_spec(fmt, q) is Some {
                        let (toksq, eq) = body_spec(fmt, q)->Some_0;
                        assert(toksq == seq![TokenModel::Fld(nm)] + body_toks(fmt, j));
                        assert(merge_tokens(built, toksq) == merge_tokens(added, body_toks(
                            fmt,
                            j,
                        )));
                    }
                }
            } else {
                let ghost cur_snap = cur@;
                self.pos = self.pos + 1;
                cur.push(c);
                last_was_field = false;
                proof {
                    assert(cur@.drop_last() =~= cur_snap);
                    assert(built == added + pend(cur_snap));
                    lemma_merge_push_char(built, c, body_toks(fmt, self.pos as int));
                    if cur_snap.len() > 0 {
                        assert(built.last() == TokenModel::Lit(cur_snap));
                        assert(built.drop_last() =~= added);
                        assert(token_chars(built.last()).push(c) =~= cur@);
                        assert(push_char(built, c) =~= added + pend(cur@));
                    } else {
                        assert(built =~= added);
                        assert(cur@ =~= seq![c]);
                        assert(push_char(built, c) =~= added + pend(cur@));
                    }
                }
            }
        }
        // flush a trailing literal run
        if cur.len() > 0 {
            let lit = chars_string(&cur);
            proof {
                lemma_models_push(self.tokens@, LogToken::Str(lit));
            }
            self.tokens.push(LogToken::Str(lit));
            proof {
                assert(models(self.tokens@) =~= (t0 + added).push(TokenModel::Lit(cur@)));
                assert(models(self.tokens@) =~= t0 + (added + pend(cur@)));
            }
        } else {
            proof {
                assert(t0 + (added + pend(cur@)) =~= t0 + added);
            }
        }
        Ok(())
    }

    /// Compiles the whole description, with exactly the outcomes
    /// `format_spec` gives.
    pub fn parse(self) -> (r: Result<Vec<LogToken>, ParseError>)
        requires
            self.pos == 0,
            self.tokens@.len() == 0,
        ensures
            match format_spec(self.format@) {
                None => r matches Err(e) && e.0@ == format_err(self.format@),
                Some(toks) => r matches Ok(v) && models(v@) == toks,
            },
    {
        let mut this = self;
        let ghost fmt = this.format@;
        proof {
            assert(models(this.tokens@) =~= Seq::<TokenModel>::empty());
            lemma_ws_end_bounds(fmt, 0);
        }
        this.skip_whitespace();
        if this.pos >= this.format.len() {
            return Err(ParseError("Empty string".to_owned()));
        }
        if this.maybe_consume("log_format") {
            this.skip_whitespace();
            if this.maybe_consume("combined") {
                this.skip_whitespace();
            }
            let ghost j2 = this.pos as int;
            if !(this.pos < this.format.len() && this.format[this.pos] == '\'') {
                return Err(ParseError("Missing '".to_owned()));
            }
            this.pos = this.pos + 1;
            proof {
                lemma_body_spec_bounds(fmt, j2 + 1);
            }
            match this.parse_format() {
                Ok(()) => {},
                Err(e) => {
                    return Err(e);
                },
            }
            let ghost toks = body_toks(fmt, j2 + 1);
            proof {
                assert(Seq::<TokenModel>::empty() + toks =~= toks);
            }
            if !(this.pos < this.format.len() && this.format[this.pos] == '\'') {
                return Err(ParseError("Missing final '".to_owned()));
            }
            this.pos = this.pos + 1;
            if this.pos == this.format.len() {
                return Ok(this.tokens);
            }
            if this.format[this.pos] != ';' {
                return Err(ParseError("Unexpected characters at the end".to_owned()));
            }
            this.pos = this.pos + 1;
            this.skip_whitespace();
            if this.pos < this.format.len() {
                return Err(ParseError("Unexpected characters at the end".to_owned()));
            }
            Ok(this.tokens)
        } else {
            let ghost i = this.pos as int;
            proof {
                lemma_body_spec_bounds(fmt, i);
            }
            match this.parse_format() {
                Ok(()) => {},
                Err(e) => {
                    return Err(e);
                },
            }
            let ghost toks = body_toks(fmt, i);
            proof {
                assert(Seq::<TokenModel>::empty() + toks =~= toks);
            }
            if this.pos < this.format.len() {
                return Err(ParseError("Unexpected characters at the end".to_owned()));
            }
            Ok(this.tokens)
        }
    }
}

/// The pending literal run as a token sequence: nothing when empty.
pub open spec fn pend(cur: Seq<char>) -> Seq<TokenModel> {
    if cur.len() > 0 {
        seq![TokenModel::Lit(cur)]
    } else {
        Seq::empty()
    }
}

/// The tokens of a successful body scan.
pub open spec fn body_toks(s: Seq<char>, i: int) -> Seq<TokenModel> {
    match body_spec(s, i) {
        None => Seq::empty(),
        Some((toks, e)) => toks,
    }
}


/// Replays compiled tokens against one line from position `i`: a literal
/// run must stand at the cursor exactly; a field followed by a literal run
/// takes everything up to the first occurrence of that run's first
/// character (absence of which fails the line); a final field takes the
/// rest of the line, the empty rest included.  Two adjacent fields cannot
/// be parsed; compilation never yields them (`no_adjacent_fields`), so the
/// arm only guards hand-built token lists.  Yields the (name, value) pairs
/// and the final cursor.
pub open spec fn line_spec(tokens: Seq<TokenModel>, line: Seq<char>, i: int) -> Option<
    (Seq<(Seq<char>, Seq<char>)>, int),
>
    decreases tokens.len(),
{
    if tokens.len() == 0 {
        Some((Seq::empty(), i))
    } else {
        match tokens[0] {
            TokenModel::Lit(t) => {
                if starts_with(line, i, t) {
                    line_spec(tokens.drop_first(), line, i + t.len())
                } else {
                    None
                }
            },
            TokenModel::Fld(f) => {
                if tokens.len() == 1 {
                    if 0 <= i <= line.len() {
                        Some(
                            (seq![(f, line.subrange(i, line.len() as int))], line.len() as int),
                        )
                    } else {
                        None
                    }
                } else {
                    match tokens[1] {
                        TokenModel::Fld(_) => None,
                        TokenModel::Lit(t) => {
                            if t.len() == 0 {
                                None
                            } else {
                                match find_char(line, t[0], i) {
                                    None => None,
                                    Some(k) => match line_spec(tokens.drop_first(), line, k) {
                                        None => None,
                                        Some((vals, e)) => Some(
                                            (seq![(f, line.subrange(i, k))] + vals, e),
                                        ),
                                    },
                                }
                            }
                        },
                    }
                }
            },
        }
    }
}

/// The report of a failing line parse, mirroring `line_spec`'s failure
/// branches: the expected literal with the text found at the cursor, the
/// missing separator character, or the two unseparated field names (the
/// last only for hand-built token lists).  Empty on success.
pub open spec fn line_err(tokens: Seq<TokenModel>, line: Seq<char>, i: int) -> Seq<char>
    decreases tokens.len(),
{
    if tokens.len() == 0 {
        Seq::empty()
    } else {
        match tokens[0] {
            TokenModel::Lit(t) => {
                if starts_with(line, i, t) {
                    line_err(tokens.drop_first(), line, i + t.len())
                } else {
                    "Expected \""@ + t + "\", found \""@ + line.subrange(
                        i,
                        i + mismatch_at(line, i, t, 0),
                    ) + "\""@
                }
            },
            TokenModel::Fld(f) => {
                if tokens.len() == 1 {
                    Seq::empty()
                } else {
                    match tokens[1] {
                        TokenModel::Fld(f2) => "No separator between \""@ + f + "\" and \""@
                            + f2 + "\""@,
                        TokenModel::Lit(t) => {
                            if t.len() == 0 {
                                Seq::empty()
                            } else {
                                match find_char(line, t[0], i) {
                                    None => "Missing separator \""@ + seq![t[0]] + "\""@,
                                    Some(k) => line_err(tokens.drop_first(), line, k),
                                }
                            }
                        },
                    }
                }
            },
        }
    }
}

/// One parsed field: its name and the text it covered, both copied out of
/// the line.
#[derive(Clone, Debug, PartialEq)]
pub struct LogValue {
    pub variable: String,
    pub value: String,
}

impl View for LogValue {
    type V = (Seq<char>, Seq<char>);

    open spec fn view(&self) -> (Seq<char>, Seq<char>) {
        (self.variable@, self.value@)
    }
}

pub open spec fn values_view(vs: Seq<LogValue>) -> Seq<(Seq<char>, Seq<char>)> {
    vs.map_values(|v: LogValue| v@)
}

/// Puts already-collected pairs in front of a parse result.
pub open spec fn with_prefix(
    vals: Seq<(Seq<char>, Seq<char>)>,
    r: Option<(Seq<(Seq<char>, Seq<char>)>, int)>,
) -> Option<(Seq<(Seq<char>, Seq<char>)>, int)> {
    match r {
        None => None,
        Some((vs, e)) => Some((vals + vs, e)),
    }
}

/// One run of the line parser: the tokens, the line's characters, a cursor
/// and the pairs read so far.
pub struct LogParserInner<'a> {
    pub tokens: &'a Vec<LogToken>,
    pub log: Vec<char>,
    pub pos: usize,
    pub values: Vec<LogValue>,
}

impl<'a> LogParserInner<'a> {
    pub fn new(tokens: &'a Vec<LogToken>, log: &str) -> (p: LogParserInner<'a>)
        ensures
            p.tokens == tokens,
            p.log@ == log@,
            p.pos == 0,
            p.values@ =~= Seq::<LogValue>::empty(),
    {
        LogParserInner { tokens, log: str_chars(log), pos: 0, values: Vec::new() }
    }

    /// Walks the tokens over the line, with exactly the outcomes
    /// `line_spec` gives.
    #[verifier::loop_isolation(false)]
    pub fn parse(self) -> (r: Result<Vec<LogValue>, ParseError>)
        requires
            self.pos == 0,
            self.values@.len() == 0,
            tokens_wf(models(self.tokens@)),
        ensures
            match line_spec(models(self.tokens@), self.log@, 0) {
                None => r matches Err(e) && e.0@ == line_err(
                    models(self.tokens@),
                    self.log@,
                    0,
                ),
                Some((vals, e)) => r matches Ok(v) && values_view(v@) == vals,
            },
    {
        let mut this = self;
        let ghost tm = models(this.tokens@);
        let ghost lg = this.log@;
        let n = this.tokens.len();
        let nl = this.log.len();
        proof {
            assert(values_view(this.values@) =~= Seq::<(Seq<char>, Seq<char>)>::empty());
            assert(tm.skip(0) =~= tm);
            if line_spec(tm, lg, 0) is Some {
                let (vs, e) = line_spec(tm, lg, 0)->Some_0;
                assert(Seq::<(Seq<char>, Seq<char>)>::empty() + vs =~= vs);
            }
        }
        let mut i: usize = 0;
        while i < n
            invariant
                models(this.tokens@) == tm,
                this.log@ == lg,
                n == tm.len(),
                nl == lg.len(),
                lg.len() <= usize::MAX,
                tokens_wf(tm),
                i <= n,
                this.pos <= nl,
                line_spec(tm, lg, 0) == with_prefix(
                    values_view(this.values@),
                    line_spec(tm.skip(i as int), lg, this.pos as int),
                ),
                line_err(tm, lg, 0) == line_err(tm.skip(i as int), lg, this.pos as int),
            decreases n - i,
        {
            let ghost rem = tm.skip(i as int);
            let ghost vacc = values_view(this.values@);
            proof {
                assert(rem.drop_first() =~= tm.skip(i + 1));
                assert(rem[0] == tm[i as int]);
            }
            match &this.tokens[i] {
                LogToken::Str(s) => {
                    proof {
                        assert(tm[i as int] == TokenModel::Lit(s@));
                    }
                    let sv = str_chars(s.as_str());
                    if !prefix_at(&this.log, this.pos, &sv) {
                        // cite the expected literal and what stood at the
                        // cursor, up to the first divergence
                        let mut k: usize = 0;
                        while k < sv.len() && this.pos + k < this.log.len() && this.log[this.pos
                            + k] == sv[k]
                            invariant
                                k <= sv@.len(),
                                this.pos + k <= this.log@.len(),
                                mismatch_at(lg, this.pos as int, sv@, 0) == mismatch_at(
                                    lg,
                                    this.pos as int,
                                    sv@,
                                    k as int,
                                ),
                            decreases sv@.len() - k,
                        {
                            k += 1;
                        }
                        let found = sub_string(&this.log, this.pos, this.pos + k);
                        let mut m = "Expected \"".to_owned();
                        m.append(s.as_str());
                        m.append("\", found \"");
                        m.append(found.as_str());
                        m.append("\"");
                        proof {
                            assert(k as int == mismatch_at(lg, this.pos as int, sv@, 0));
                            assert(m@ == line_err(rem, lg, this.pos as int));
                        }
                        return Err(ParseError(m));
                    }
                    this.pos = this.pos + sv.len();
                },
                LogToken::Field(f) => {
                    proof {
                        assert(tm[i as int] == TokenModel::Fld(f@));
                    }
                    if i + 1 == n {
                        let value = sub_string(&this.log, this.pos, nl);
                        let ghost pair = (f@, lg.subrange(this.pos as int, lg.len() as int));
                        let lv = LogValue { variable: f.clone(), value };
                        proof {
                            assert(lv@ == pair);
                        }
                        this.values.push(lv);
                        this.pos = nl;
                        proof {
                            assert(values_view(this.values@) =~= vacc.push(pair));
                            assert(tm.skip(i + 1) =~= Seq::<TokenModel>::empty());
                            assert(vacc + seq![pair] =~= vacc.push(pair));
                            assert(vacc.push(pair) + Seq::<(Seq<char>, Seq<char>)>::empty()
                                =~= vacc.push(pair));
                        }
                    } else {
                        match &this.tokens[i + 1] {
                            LogToken::Field(f2) => {
                                proof {
                                    assert(rem[1] == tm[i + 1]);
                                }
                                let mut m = "No separator between \"".to_owned();
                                m.append(f.as_str());
                                m.append("\" and \"");
                                m.append(f2.as_str());
                                m.append("\"");
                                proof {
                                    assert(m@ == line_err(rem, lg, this.pos as int));
                                }
                                return Err(ParseError(m));
                            },
                            LogToken::Str(s2) => {
                                proof {
                                    assert(rem[1] == tm[i + 1]);
                                    assert(tm[i + 1] == TokenModel::Lit(s2@));
                                    assert(token_wf(tm[i + 1]));
                                }
                                let s2v = str_chars(s2.as_str());
                                let sep = s2v[0];
                                match find_char_from(&this.log, sep, this.pos) {
                                    None => {
                                        let mut sep_chars: Vec<char> = Vec::new();
                                        sep_chars.push(sep);
                                        proof {
                                            assert(sep_chars@ =~= seq![sep]);
                                        }
                                        let sep_text = chars_string(&sep_chars);
                                        let mut m = "Missing separator \"".to_owned();
                                        m.append(sep_text.as_str());
                                        m.append("\"");
                                        proof {
                                            assert(m@ == line_err(rem, lg, this.pos as int));
                                        }
                                        return Err(ParseError(m));
                                    },
                                    Some(k) => {
                                        proof {
                                            lemma_find_char_bounds(lg, sep, this.pos as int);
                                        }
                                        let value = sub_string(&this.log, this.pos, k);
                                        let ghost pair = (
                                            f@,
                                            lg.subrange(this.pos as int, k as int),
                                        );
                                        let lv = LogValue { variable: f.clone(), value };
                                        proof {
                                            assert(lv@ == pair);
                                        }
                                        this.values.push(lv);
                                        this.pos = k;
                                        proof {
                                            assert(values_view(this.values@) =~= vacc.push(pair));
                                            if line_spec(tm.skip(i + 1), lg, k as int) is Some {
                                                let (vs, e) = line_spec(
                                                    tm.skip(i + 1),
                                                    lg,
                                                    k as int,
                                                )->Some_0;
                                                assert(vacc + (seq![pair] + vs) =~= vacc.push(pair)
                                                    + vs);
                                            }
                                        }
                                    },
                                }
                            },
                        }
                    }
                },
            }
            i = i + 1;
        }
        proof {
            assert(tm.skip(n as int) =~= Seq::<TokenModel>::empty());
            assert(values_view(this.values@) + Seq::<(Seq<char>, Seq<char>)>::empty()
                =~= values_view(this.values@));
        }
        Ok(this.values)
    }
}

/// Well-formedness of everything a successful compilation yields: literal
/// runs are nonempty and no two field placeholders stand side by side.
pub proof fn lemma_format_spec_wf(s: Seq<char>)
    ensures
        match format_spec(s) {
            None => true,
            Some(toks) => tokens_wf(toks) && no_adjacent_fields(toks),
        },
{
    lemma_ws_end_bounds(s, 0);
    let i = ws_end(s, 0);
    if i >= s.len() {
    } else if starts_with(s, i, "log_format"@) {
        let j1 = ws_end(s, i + "log_format"@.len());
        lemma_ws_end_bounds(s, i + "log_format"@.len());
        let j2 = if starts_with(s, j1, "combined"@) {
            ws_end(s, j1 + "combined"@.len())
        } else {
            j1
        };
        if starts_with(s, j1, "combined"@) {
            lemma_ws_end_bounds(s, j1 + "combined"@.len());
        }
        if j2 < s.len() && s[j2] == '\'' {
            lemma_body_spec_wf(s, j2 + 1);
            lemma_body_spec_no_adjacent(s, j2 + 1);
        }
    } else {
        lemma_body_spec_wf(s, i);
        lemma_body_spec_no_adjacent(s, i);
    }
}

/// A compiled format: the token grammar and its field names in declaration
/// order.
pub struct LogParser {
    pub tokens: Vec<LogToken>,
    pub fields: Vec<String>,
}

impl LogParser {
    /// The field list carries exactly the grammar's placeholder names, in
    /// declaration order.
    pub open spec fn wf(&self) -> bool {
        strings_view(self.fields@) == field_names(models(self.tokens@))
    }

    /// Compiles a format description, with exactly the outcomes
    /// `format_spec` gives; on success the field list carries the `$name`
    /// placeholders in order, every literal run is nonempty, and no two
    /// field placeholders stand side by side.
    pub fn from_format(format: &str) -> (r: Result<LogParser, ParseError>)
        ensures
            match format_spec(format@) {
                None => r matches Err(e) && e.0@ == format_err(format@),
                Some(toks) => r matches Ok(p) && p.wf() && models(p.tokens@) == toks
                    && strings_view(p.fields@) == field_names(toks) && tokens_wf(
                    models(p.tokens@),
                ) && no_adjacent_fields(models(p.tokens@)),
            },
    {
        proof {
            lemma_format_spec_wf(format@);
        }
        let fp = LogFormatParser::new(format);
        proof {
            assert(fp.format@ == format@);
        }
        let tokens = match fp.parse() {
            Ok(t) => t,
            Err(e) => {
                return Err(e);
            },
        };
        let ghost tm = models(tokens@);
        let mut fields: Vec<String> = Vec::new();
        proof {
            assert(strings_view(fields@) =~= Seq::<Seq<char>>::empty());
            assert(tm.take(0) =~= Seq::<TokenModel>::empty());
        }
        let mut i: usize = 0;
        while i < tokens.len()
            invariant
                models(tokens@) == tm,
                i <= tokens@.len(),
                strings_view(fields@) == field_names(tm.take(i as int)),
            decreases tokens@.len() - i,
        {
            match &tokens[i] {
                LogToken::Field(f) => {
                    proof {
                        assert(tm[i as int] == TokenModel::Fld(f@));
                    }
                    let ghost before = fields@;
                    fields.push(f.clone());
                    proof {
                        assert(strings_view(fields@) =~= strings_view(before).push(f@));
                    }
                },
                LogToken::Str(_) => {
                    proof {
                        assert(tm[i as int] is Lit);
                    }
                },
            }
            proof {
                assert(tm.take(i + 1) =~= tm.take(i as int).push(tm[i as int]));
                lemma_field_names_push(tm.take(i as int), tm[i as int]);
                match tm[i as int] {
                    TokenModel::Fld(f) => {
                        assert(field_names(tm.take(i as int)) + seq![f] =~= field_names(
                            tm.take(i as int),
                        ).push(f));
                    },
                    TokenModel::Lit(_) => {
                        assert(field_names(tm.take(i as int)) + Seq::<Seq<char>>::empty()
                            =~= field_names(tm.take(i as int)));
                    },
                }
            }
            i = i + 1;
        }
        proof {
            assert(tm.take(tokens@.len() as int) =~= tm);
        }
        Ok(LogParser { tokens, fields })
    }

    /// Parses one line against the compiled grammar, with exactly the
    /// outcomes `line_spec` gives.
    pub fn parse(&self, log: &str) -> (r: Result<Vec<LogValue>, ParseError>)
        requires
            tokens_wf(models(self.tokens@)),
        ensures
            match line_spec(models(self.tokens@), log@, 0) {
                None => r matches Err(e) && e.0@ == line_err(models(self.tokens@), log@, 0),
                Some((vals, e)) => r matches Ok(v) && values_view(v@) == vals,
            },
    {
        LogParserInner::new(&self.tokens, log).parse()
    }

    /// The field names, in declaration order.
    pub fn fields(&self) -> (r: &Vec<String>)
        ensures
            r == &self.fields,
    {
        &self.fields
    }
}


/// The text a parse covers: literal runs and field values interleaved in
/// token order.
pub open spec fn rendered(tokens: Seq<TokenModel>, vals: Seq<(Seq<char>, Seq<char>)>) -> Seq<
    char,
>
    decreases tokens.len(),
{
    if tokens.len() == 0 {
        Seq::empty()
    } else {
        match tokens[0] {
            TokenModel::Lit(t) => t + rendered(tokens.drop_first(), vals),
            TokenModel::Fld(_) => {
                if vals.len() == 0 {
                    rendered(tokens.drop_first(), vals)
                } else {
                    vals[0].1 + rendered(tokens.drop_first(), vals.drop_first())
                }
            },
        }
    }
}

/// A successful parse takes its field values exactly from the substrings
/// bounded by the literal runs: putting literals and values back together
/// in token order rebuilds the consumed part of the line, and the names
/// come out in declaration order.
pub proof fn lemma_parse_reconstructs(tokens: Seq<TokenModel>, line: Seq<char>, i: int)
    requires
        0 <= i <= line.len(),
        line_spec(tokens, line, i) is Some,
    ensures
        ({
            let (vals, e) = line_spec(tokens, line, i)->Some_0;
            &&& i <= e <= line.len()
            &&& rendered(tokens, vals) == line.subrange(i, e)
            &&& vals.map_values(|p: (Seq<char>, Seq<char>)| p.0) == field_names(tokens)
        }),
    decreases tokens.len(),
{
    let (vals, e) = line_spec(tokens, line, i)->Some_0;
    let names = vals.map_values(|p: (Seq<char>, Seq<char>)| p.0);
    if tokens.len() == 0 {
        assert(rendered(tokens, vals) =~= line.subrange(i, e));
        assert(names =~= field_names(tokens));
    } else {
        match tokens[0] {
            TokenModel::Lit(t) => {
                lemma_parse_reconstructs(tokens.drop_first(), line, i + t.len());
                let (vals1, e1) = line_spec(tokens.drop_first(), line, i + t.len())->Some_0;
                assert(vals1 == vals && e1 == e);
                assert(line.subrange(i, i + t.len() as int) == t);
                assert(rendered(tokens, vals) == t + rendered(tokens.drop_first(), vals));
                assert(t + line.subrange(i + t.len() as int, e) =~= line.subrange(i, e));
                assert(names =~= field_names(tokens));
            },
            TokenModel::Fld(f) => {
                if tokens.len() == 1 {
                    assert(vals =~= seq![(f, line.subrange(i, line.len() as int))]);
                    assert(vals.drop_first() =~= Seq::<(Seq<char>, Seq<char>)>::empty());
                    assert(tokens.drop_first() =~= Seq::<TokenModel>::empty());
                    assert(rendered(tokens.drop_first(), vals.drop_first())
                        =~= Seq::<char>::empty());
                    assert(rendered(tokens, vals) =~= line.subrange(i, e));
                    assert(field_names(tokens.drop_first()) =~= Seq::<Seq<char>>::empty());
                    assert(names =~= field_names(tokens));
                } else {
                    match tokens[1] {
                        TokenModel::Fld(_) => {
                            assert(false);
                        },
                        TokenModel::Lit(t) => {
                            let k = find_char(line, t[0], i)->Some_0;
                            crate::text::lemma_find_char_bounds(line, t[0], i);
                            lemma_parse_reconstructs(tokens.drop_first(), line, k);
                            let (vals1, e1) = line_spec(tokens.drop_first(), line, k)->Some_0;
                            assert(vals == seq![(f, line.subrange(i, k))] + vals1 && e1 == e);
                            assert(vals[0] == (f, line.subrange(i, k)));
                            assert(vals.drop_first() =~= vals1);
                            assert(rendered(tokens, vals) == line.subrange(i, k) + rendered(
                                tokens.drop_first(),
                                vals1,
                            ));
                            assert(line.subrange(i, k) + line.subrange(k, e) =~= line.subrange(
                                i,
                                e,
                            ));
                            let names1 = vals1.map_values(|p: (Seq<char>, Seq<char>)| p.0);
                            assert(names =~= seq![f] + names1);
                            assert(names =~= field_names(tokens));
                        },
                    }
                }
            },
        }
    }
}

/// Parsing keeps no hidden state: the outcome is a function of the grammar
/// and the line alone, so two parses of the same line agree.
pub proof fn lemma_parse_repeatable(
    tokens: Seq<TokenModel>,
    line: Seq<char>,
    r1: Option<(Seq<(Seq<char>, Seq<char>)>, int)>,
    r2: Option<(Seq<(Seq<char>, Seq<char>)>, int)>,
)
    requires
        r1 == line_spec(tokens, line, 0),
        r2 == line_spec(tokens, line, 0),
    ensures
        r1 == r2,
{
}

/// A field standing as the final token consumes the line to its end — the
/// empty rest included: the parse stops at the line's end and the last
/// value is exactly the line's tail.
pub proof fn lemma_last_field_takes_rest(tokens: Seq<TokenModel>, line: Seq<char>, i: int)
    requires
        0 <= i <= line.len(),
        tokens.len() > 0,
        tokens.last() is Fld,
        line_spec(tokens, line, i) is Some,
    ensures
        ({
            let (vals, e) = line_spec(tokens, line, i)->Some_0;
            &&& e == line.len()
            &&& vals.len() > 0
            &&& vals.last().1 == line.subrange(
                line.len() - vals.last().1.len(),
                line.len() as int,
            )
        }),
    decreases tokens.len(),
{
    let (vals, e) = line_spec(tokens, line, i)->Some_0;
    if tokens.len() == 1 {
        assert(tokens[0] == tokens.last());
        let f = tokens[0]->Fld_0;
        assert(vals == seq![(f, line.subrange(i, line.len() as int))]);
        assert(vals.last().1 == line.subrange(i, line.len() as int));
        assert(vals.last().1.len() == line.len() - i);
    } else {
        match tokens[0] {
            TokenModel::Lit(t) => {
                assert(tokens.drop_first().last() == tokens.last());
                lemma_last_field_takes_rest(tokens.drop_first(), line, i + t.len());
            },
            TokenModel::Fld(f) => {
                match tokens[1] {
                    TokenModel::Fld(_) => {
                        assert(false);
                    },
                    TokenModel::Lit(t) => {
                        let k = find_char(line, t[0], i)->Some_0;
                        crate::text::lemma_find_char_bounds(line, t[0], i);
                        assert(tokens.drop_first().last() == tokens.last());
                        lemma_last_field_takes_rest(tokens.drop_first(), line, k);
                        let (vals1, e1) = line_spec(tokens.drop_first(), line, k)->Some_0;
                        assert(vals == seq![(f, line.subrange(i, k))] + vals1);
                        assert(vals.last() == vals1.last());
                    },
                }
            },
        }
    }
}

} // verus!
