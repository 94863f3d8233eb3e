//! Splits SQL text into typed spans: plain text, comments, string literals
//! and named parameter tokens.
use vstd::prelude::*;
use crate::text::chars_of;

verus! {

/// What a span of text is.
#[derive(Clone, Copy, Debug, PartialEq, Eq, Structural)]
pub enum SpanKind {
    Plain,
    LineComment,
    BlockComment,
    StringLiteral,
    Param,
}

/// A span `[start, end)` of character offsets, with its kind. For a
/// parameter token the span covers the colon and the name.
#[derive(Clone, Copy, Debug, PartialEq, Eq, Structural)]
pub struct Span {
    pub kind: SpanKind,
    pub start: usize,
    pub end: usize,
}

/// An unterminated string literal or block comment, at the offset where it opens.
#[derive(Clone, Copy, Debug, PartialEq, Eq, Structural)]
pub struct LexError {
    pub offset: usize,
}

pub open spec fn is_ident_start(c: char) -> bool {
    ('a' <= c && c <= 'z') || ('A' <= c && c <= 'Z') || c == '_'
}

pub open spec fn is_ident_char(c: char) -> bool {
    is_ident_start(c) || ('0' <= c && c <= '9')
}

pub open spec fn is_quote(c: char) -> bool {
    c == '\'' || c == '"'
}

pub open spec fn starts_line_comment(t: Seq<char>, i: int) -> bool {
    0 <= i && i + 1 < t.len() && t[i] == '-' && t[i + 1] == '-'
}

pub open spec fn starts_block_comment(t: Seq<char>, i: int) -> bool {
    0 <= i && i + 1 < t.len() && t[i] == '/' && t[i + 1] == '*'
}

/// A colon followed by an identifier start and not preceded by another
/// colon (so a `::` cast is never a parameter).
pub open spec fn starts_param(t: Seq<char>, i: int) -> bool {
    0 <= i && i + 1 < t.len() && t[i] == ':' && is_ident_start(t[i + 1]) && (i == 0 || t[i - 1]
        != ':')
}

pub open spec fn starts_token(t: Seq<char>, i: int) -> bool {
    0 <= i < t.len() && (starts_line_comment(t, i) || starts_block_comment(t, i) || is_quote(t[i])
        || starts_param(t, i))
}

/// End of a run of plain text that has reached `j`.
pub open spec fn plain_end(t: Seq<char>, j: int) -> int
    decreases t.len() - j,
{
    if j >= t.len() || starts_token(t, j) {
        j
    } else {
        plain_end(t, j + 1)
    }
}

/// End of a line comment that has reached `j`: just past the newline, or the end of text.
pub open spec fn line_end(t: Seq<char>, j: int) -> int
    decreases t.len() - j,
{
    if j >= t.len() {
        t.len() as int
    } else if t[j] == '\n' {
        j + 1
    } else {
        line_end(t, j + 1)
    }
}

/// End of a block comment whose body has reached `j`: just past the first `*/`.
pub open spec fn block_end(t: Seq<char>, j: int) -> Option<int>
    decreases t.len() - j,
{
    if j + 1 >= t.len() {
        None
    } else if t[j] == '*' && t[j + 1] == '/' {
        Some(j + 2)
    } else {
        block_end(t, j + 1)
    }
}

/// End of a literal quoted by `q` whose body has reached `j`: a doubled quote
/// is an escaped quote, any other quote `q` closes it.
pub open spec fn quote_end(t: Seq<char>, q: char, j: int) -> Option<int>
    decreases t.len() - j,
{
    if j >= t.len() {
        None
    } else if t[j] == q {
        if j + 1 < t.len() && t[j + 1] == q {
            quote_end(t, q, j + 2)
        } else {
            Some(j + 1)
        }
    } else {
        quote_end(t, q, j + 1)
    }
}

/// End of the identifier run that has reached `j`.
pub open spec fn ident_end(t: Seq<char>, j: int) -> int
    decreases t.len() - j,
{
    if 0 <= j < t.len() && is_ident_char(t[j]) {
        ident_end(t, j + 1)
    } else {
        j
    }
}

/// The kind and end of the token that starts at `i`, or the offset of an
/// unterminated literal or comment.
pub open spec fn token_at(t: Seq<char>, i: int) -> Result<(SpanKind, int), int> {
    if starts_line_comment(t, i) {
        Ok((SpanKind::LineComment, line_end(t, i + 2)))
    } else if starts_block_comment(t, i) {
        match block_end(t, i + 2) {
            Some(e) => Ok((SpanKind::BlockComment, e)),
            None => Err(i),
        }
    } else if is_quote(t[i]) {
        match quote_end(t, t[i], i + 1) {
            Some(e) => Ok((SpanKind::StringLiteral, e)),
            None => Err(i),
        }
    } else if starts_param(t, i) {
        Ok((SpanKind::Param, ident_end(t, i + 1)))
    } else {
        Ok((SpanKind::Plain, plain_end(t, i + 1)))
    }
}

/// Prepends `p` to a successful result.
pub open spec fn glue(p: Seq<Span>, r: Result<Seq<Span>, LexError>) -> Result<Seq<Span>, LexError> {
    match r {
        Ok(s) => Ok(p + s),
        Err(e) => Err(e),
    }
}

/// The spans of `t` from offset `i` on.
pub open spec fn lex_from(t: Seq<char>, i: int) -> Result<Seq<Span>, LexError>
    decreases t.len() - i,
{
    if i < 0 || i >= t.len() {
        Ok(seq![])
    } else {
        match token_at(t, i) {
            Err(o) => Err(LexError { offset: o as usize }),
            Ok((k, e)) => if e <= i || e > t.len() {
                Ok(seq![])
            } else {
                glue(seq![Span { kind: k, start: i as usize, end: e as usize }], lex_from(t, e))
            },
        }
    }
}

/// The spans of the whole text.
pub open spec fn lex_spec(t: Seq<char>) -> Result<Seq<Span>, LexError> {
    lex_from(t, 0)
}

/// The text that the spans cover, concatenated in order.
pub open spec fn spans_text(t: Seq<char>, s: Seq<Span>) -> Seq<char>
    decreases s.len(),
{
    if s.len() == 0 {
        seq![]
    } else {
        t.subrange(s[0].start as int, s[0].end as int) + spans_text(t, s.drop_first())
    }
}

pub proof fn lemma_plain_end(t: Seq<char>, j: int)
    requires
        0 <= j <= t.len(),
    ensures
        j <= plain_end(t, j) <= t.len(),
    decreases t.len() - j,
{
    if j < t.len() && !starts_token(t, j) {
        lemma_plain_end(t, j + 1);
    }
}

pub proof fn lemma_line_end(t: Seq<char>, j: int)
    requires
        0 <= j <= t.len(),
    ensures
        j <= line_end(t, j) <= t.len(),
    decreases t.len() - j,
{
    if j < t.len() && t[j] != '\n' {
        lemma_line_end(t, j + 1);
    }
}

pub proof fn lemma_block_end(t: Seq<char>, j: int)
    requires
        0 <= j,
    ensures
        block_end(t, j) matches Some(e) ==> j < e <= t.len(),
    decreases t.len() - j,
{
    if j + 1 < t.len() && !(t[j] == '*' && t[j + 1] == '/') {
        lemma_block_end(t, j + 1);
    }
}

pub proof fn lemma_quote_end(t: Seq<char>, q: char, j: int)
    requires
        0 <= j,
    ensures
        quote_end(t, q, j) matches Some(e) ==> j < e <= t.len(),
    decreases t.len() - j,
{
    if j < t.len() {
        if t[j] == q {
            if j + 1 < t.len() && t[j + 1] == q {
                lemma_quote_end(t, q, j + 2);
            }
        } else {
            lemma_quote_end(t, q, j + 1);
        }
    }
}

pub proof fn lemma_ident_end(t: Seq<char>, j: int)
    requires
        0 <= j <= t.len(),
    ensures
        j <= ident_end(t, j) <= t.len(),
    decreases t.len() - j,
{
    if j < t.len() && is_ident_char(t[j]) {
        lemma_ident_end(t, j + 1);
    }
}

/// Every token ends after it starts and inside the text.
pub proof fn lemma_token_at(t: Seq<char>, i: int)
    requires
        0 <= i < t.len(),
    ensures
        token_at(t, i) matches Ok((k, e)) ==> i < e <= t.len(),
        token_at(t, i) matches Err(o) ==> o == i,
{
    lemma_plain_end(t, i + 1);
    lemma_block_end(t, i + 2);
    lemma_quote_end(t, t[i], i + 1);
    if i + 2 <= t.len() {
        lemma_line_end(t, i + 2);
        lemma_ident_end(t, i + 2);
    }
}

/// The spans that lexing from `i` yields cover `t[i..]` exactly, in order.
pub proof fn lemma_lex_from_covers(t: Seq<char>, i: int)
    requires
        0 <= i <= t.len(),
        t.len() <= usize::MAX,
    ensures
        lex_from(t, i) matches Ok(s) ==> spans_text(t, s) == t.subrange(i, t.len() as int),
    decreases t.len() - i,
{
    if i < t.len() {
        lemma_token_at(t, i);
        if let Ok((k, e)) = token_at(t, i) {
            lemma_lex_from_covers(t, e);
            if let Ok(rest) = lex_from(t, e) {
                let sp = Span { kind: k, start: i as usize, end: e as usize };
                let s = seq![sp] + rest;
                assert(s.drop_first() =~= rest);
                assert(s[0] == sp);
                assert(t.subrange(i, t.len() as int) =~= t.subrange(i, e) + t.subrange(
                    e,
                    t.len() as int,
                ));
            }
        }
    } else {
        assert(t.subrange(i, t.len() as int) =~= Seq::<char>::empty());
    }
}

/// Lexing is lossless: whenever the text lexes, the concatenation of the
/// spans' text is the text itself.
pub proof fn lemma_lex_round_trip(t: Seq<char>)
    requires
        t.len() <= usize::MAX,
    ensures
        lex_spec(t) matches Ok(s) ==> spans_text(t, s) == t,
{
    lemma_lex_from_covers(t, 0);
    assert(t.subrange(0, t.len() as int) =~= t);
}

fn is_ident_start_exec(c: char) -> (r: bool)
    ensures
        r == is_ident_start(c),
{
    ('a' <= c && c <= 'z') || ('A' <= c && c <= 'Z') || c == '_'
}

fn is_ident_char_exec(c: char) -> (r: bool)
    ensures
        r == is_ident_char(c),
{
    is_ident_start_exec(c) || ('0' <= c && c <= '9')
}

fn starts_token_exec(t: &Vec<char>, i: usize) -> (r: bool)
    requires
        i < t@.len(),
    ensures
        r == starts_token(t@, i as int),
{
    let n = t.len();
    let c = t[i];
    if c == '\'' || c == '"' {
        return true;
    }
    if i + 1 < n {
        let d = t[i + 1];
        if (c == '-' && d == '-') || (c == '/' && d == '*') {
            return true;
        }
        if c == ':' && is_ident_start_exec(d) && (i == 0 || t[i - 1] != ':') {
            return true;
        }
    }
    false
}

fn plain_end_exec(t: &Vec<char>, j: usize) -> (r: usize)
    requires
        j <= t@.len(),
    ensures
        r as int == plain_end(t@, j as int),
{
    let mut k = j;
    while k < t.len() && !starts_token_exec(t, k)
        invariant
            j <= k <= t@.len(),
            plain_end(t@, k as int) == plain_end(t@, j as int),
        decreases t@.len() - k,
    {
        k = k + 1;
    }
    k
}

fn line_end_exec(t: &Vec<char>, j: usize) -> (r: usize)
    requires
        j <= t@.len(),
    ensures
        r as int == line_end(t@, j as int),
{
    let mut k = j;
    while k < t.len()
        invariant
            j <= k <= t@.len(),
            line_end(t@, k as int) == line_end(t@, j as int),
        decreases t@.len() - k,
    {
        if t[k] == '\n' {
            return k + 1;
        }
        k = k + 1;
    }
    k
}

fn block_end_exec(t: &Vec<char>, j: usize) -> (r: Option<usize>)
    requires
        j <= t@.len(),
    ensures
        r matches Some(e) ==> block_end(t@, j as int) == Some(e as int),
        r is None ==> block_end(t@, j as int) is None,
{
    let mut k = j;
    while k < t.len() && 1 < t.len() - k
        invariant
            j <= k <= t@.len(),
            block_end(t@, k as int) == block_end(t@, j as int),
        decreases t@.len() - k,
    {
        if t[k] == '*' && t[k + 1] == '/' {
            return Some(k + 2);
        }
        k = k + 1;
    }
    None
}

fn quote_end_exec(t: &Vec<char>, q: char, j: usize) -> (r: Option<usize>)
    requires
        j <= t@.len(),
    ensures
        r matches Some(e) ==> quote_end(t@, q, j as int) == Some(e as int),
        r is None ==> quote_end(t@, q, j as int) is None,
{
    let mut k = j;
    while k < t.len()
        invariant
            j <= k <= t@.len() + 1,
            quote_end(t@, q, k as int) == quote_end(t@, q, j as int),
        decreases t@.len() + 1 - k,
    {
        if t[k] == q {
            if k + 1 < t.len() && t[k + 1] == q {
                k = k + 2;
            } else {
                return Some(k + 1);
            }
        } else {
            k = k + 1;
        }
    }
    None
}

fn ident_end_exec(t: &Vec<char>, j: usize) -> (r: usize)
    requires
        j <= t@.len(),
    ensures
        r as int == ident_end(t@, j as int),
{
    let mut k = j;
    while k < t.len() && is_ident_char_exec(t[k])
        invariant
            j <= k <= t@.len(),
            ident_end(t@, k as int) == ident_end(t@, j as int),
        decreases t@.len() - k,
    {
        k = k + 1;
    }
    k
}

fn token_at_exec(t: &Vec<char>, i: usize) -> (r: Result<(SpanKind, usize), usize>)
    requires
        i < t@.len(),
    ensures
        r matches Ok((k, e)) ==> token_at(t@, i as int) == Ok::<(SpanKind, int), int>(
            (k, e as int),
        ),
        r matches Err(o) ==> token_at(t@, i as int) == Err::<(SpanKind, int), int>(o as int),
{
    let n = t.len();
    let c = t[i];
    if i + 1 < n && c == '-' && t[i + 1] == '-' {
        Ok((SpanKind::LineComment, line_end_exec(t, i + 2)))
    } else if i + 1 < n && c == '/' && t[i + 1] == '*' {
        match block_end_exec(t, i + 2) {
            Some(e) => Ok((SpanKind::BlockComment, e)),
            None => Err(i),
        }
    } else if c == '\'' || c == '"' {
        match quote_end_exec(t, c, i + 1) {
            Some(e) => Ok((SpanKind::StringLiteral, e)),
            None => Err(i),
        }
    } else if i + 1 < n && c == ':' && is_ident_start_exec(t[i + 1]) && (i == 0 || t[i - 1]
        != ':') {
        Ok((SpanKind::Param, ident_end_exec(t, i + 1)))
    } else {
        Ok((SpanKind::Plain, plain_end_exec(t, i + 1)))
    }
}

/// Splits the characters `t` into spans.
pub fn lex_chars(t: &Vec<char>) -> (r: Result<Vec<Span>, LexError>)
    ensures
        r matches Ok(s) ==> lex_spec(t@) == Ok::<Seq<Span>, LexError>(s@),
        r matches Err(e) ==> lex_spec(t@) == Err::<Seq<Span>, LexError>(e),
{
    let mut spans: Vec<Span> = Vec::new();
    let mut i: usize = 0;
    while i < t.len()
        invariant
            i <= t@.len(),
            lex_spec(t@) == glue(spans@, lex_from(t@, i as int)),
        decreases t@.len() - i,
    {
        proof {
            lemma_token_at(t@, i as int);
        }
        match token_at_exec(t, i) {
            Err(o) => {
                return Err(LexError { offset: o });
            },
            Ok((k, e)) => {
                let sp = Span { kind: k, start: i, end: e };
                proof {
                    let ghost rest = lex_from(t@, e as int);
                    assert(lex_from(t@, i as int) == glue(seq![sp], rest));
                    if let Ok(r) = rest {
                        assert(spans@ + (seq![sp] + r) =~= spans@.push(sp) + r);
                    }
                }
                spans.push(sp);
                i = e;
            },
        }
    }
    assert(spans@ + Seq::<Span>::empty() =~= spans@);
    Ok(spans)
}

/// Splits SQL text into spans. Offsets count characters.
pub fn lex(text: &str) -> (r: Result<Vec<Span>, LexError>)
    ensures
        r matches Ok(s) ==> lex_spec(text@) == Ok::<Seq<Span>, LexError>(s@),
        r matches Err(e) ==> lex_spec(text@) == Err::<Seq<Span>, LexError>(e),
{
    let t = chars_of(text);
    lex_chars(&t)
}

/// The spans of a successful lex tile `t[i..]`: each one is the token that
/// `token_at` finds where the previous one ended.
pub open spec fn spans_tile(t: Seq<char>, s: Seq<Span>, i: int) -> bool {
    &&& spans_chain(t, s)
    &&& s.len() > 0 ==> s[0].start == i && s.last().end == t.len()
    &&& s.len() == 0 ==> i >= t.len()
}

/// Consecutive tokens of `t`: each span is the token that `token_at` finds at
/// its start, and each one starts where the previous one ended.
pub open spec fn spans_chain(t: Seq<char>, s: Seq<Span>) -> bool {
    &&& forall|j: int|
        0 <= j < s.len() ==> token_at(t, s[j].start as int) == Ok::<(SpanKind, int), int>(
            (s[j].kind, s[j].end as int),
        )
    &&& forall|j: int| 0 <= j < s.len() ==> #[trigger] s[j].start < s[j].end <= t.len()
    &&& forall|j: int| 0 < j < s.len() ==> #[trigger] s[j].start == s[j - 1].end
}

pub proof fn lemma_lex_from_tiles(t: Seq<char>, i: int)
    requires
        0 <= i <= t.len(),
        t.len() <= usize::MAX,
    ensures
        lex_from(t, i) matches Ok(s) ==> spans_tile(t, s, i),
    decreases t.len() - i,
{
    if i < t.len() {
        lemma_token_at(t, i);
        if let Ok((k, e)) = token_at(t, i) {
            lemma_lex_from_tiles(t, e);
            if let Ok(rest) = lex_from(t, e) {
                let sp = Span { kind: k, start: i as usize, end: e as usize };
                let s = seq![sp] + rest;
                assert forall|j: int| 0 < j < s.len() implies #[trigger] s[j] == rest[j - 1] by {}
                assert(s[0] == sp);
            }
        }
    }
}

} // verus!
