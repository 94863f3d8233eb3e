//! Splits a file of SQL into named statements at `-- name: <ident>`
//! annotation comments, and analyses each statement.
use vstd::prelude::*;
use crate::classify::{Analysis, ConflictModel, RoleConflict, Statement, analysis_wf, analyze, classify, is_ws};
use crate::lexer::{LexError, Span, SpanKind, is_ident_char, is_ident_start, lemma_lex_from_tiles, lex_chars, lex_spec, spans_chain};
use crate::text::{chars_of, string_of_range};

verus! {

/// Why a file could not be analysed. Offsets count characters from the
/// start of the file.
#[derive(Clone, Debug)]
pub enum ParseError {
    /// An unterminated string literal or block comment.
    Lex(LexError),
    /// A `-- name:` comment that is not followed by one identifier.
    Malformed { offset: usize },
    /// Two statements with one name, at the offsets of both annotations.
    Duplicate { name: String, first: usize, second: usize },
    /// The file declares no statement.
    NoStatements,
    /// A parameter used both as a scalar and as a list.
    Conflict(RoleConflict),
}

/// A statement annotation: the name, the offset of its comment, and the
/// index of its comment among the file's spans.
#[derive(Clone, Debug)]
pub struct Annotation {
    pub name: String,
    pub offset: usize,
    pub index: usize,
}

/// The mathematical value of an [`Annotation`].
pub struct AnnotationModel {
    pub name: Seq<char>,
    pub offset: int,
    pub index: int,
}

/// What is wrong with the annotations of a file: a malformed one at an
/// offset, or a name declared at two offsets.
pub enum AnnotationErr {
    Malformed(int),
    Duplicate(Seq<char>, int, int),
}

impl View for Annotation {
    type V = AnnotationModel;

    open spec fn view(&self) -> AnnotationModel {
        AnnotationModel { name: self.name@, offset: self.offset as int, index: self.index as int }
    }
}

pub open spec fn is_blank(c: char) -> bool {
    c == ' ' || c == '\t'
}

/// The first offset from `i` on, before `end`, that is not a space or tab.
pub open spec fn skip_blank(t: Seq<char>, i: int, end: int) -> int
    decreases end - i,
{
    if 0 <= i < end && i < t.len() && is_blank(t[i]) {
        skip_blank(t, i + 1, end)
    } else {
        i
    }
}

/// The end of the identifier characters from `i` on, before `end`.
pub open spec fn ident_run(t: Seq<char>, i: int, end: int) -> int
    decreases end - i,
{
    if 0 <= i < end && i < t.len() && is_ident_char(t[i]) {
        ident_run(t, i + 1, end)
    } else {
        i
    }
}

/// Where the word `name:` would start in the comment `sp`.
pub open spec fn marker_start(t: Seq<char>, sp: Span) -> int {
    skip_blank(t, sp.start + 2, sp.end as int)
}

/// The comment `sp` is an annotation: its text after `--` and blanks starts
/// with `name:`.
pub open spec fn is_marker(t: Seq<char>, sp: Span) -> bool {
    let m = marker_start(t, sp);
    &&& sp.kind == SpanKind::LineComment
    &&& m + 5 <= sp.end <= t.len()
    &&& t.subrange(m, m + 5) == seq!['n', 'a', 'm', 'e', ':']
}

pub open spec fn name_start(t: Seq<char>, sp: Span) -> int {
    skip_blank(t, marker_start(t, sp) + 5, sp.end as int)
}

pub open spec fn name_end(t: Seq<char>, sp: Span) -> int {
    ident_run(t, name_start(t, sp), sp.end as int)
}

/// The annotation names one identifier and nothing else follows it.
pub open spec fn well_formed_marker(t: Seq<char>, sp: Span) -> bool {
    let s = name_start(t, sp);
    let e = name_end(t, sp);
    &&& s < e
    &&& is_ident_start(t[s])
    &&& forall|k: int| e <= k < sp.end ==> is_ws(#[trigger] t[k])
}

/// The first index of an annotation named `n`, or -1.
pub open spec fn annotation_index_from(v: Seq<AnnotationModel>, n: Seq<char>, i: int) -> int
    decreases v.len() - i,
{
    if i < 0 || i >= v.len() {
        -1
    } else if v[i].name == n {
        i
    } else {
        annotation_index_from(v, n, i + 1)
    }
}

/// The annotations among the first `k` spans.
#[verifier::opaque]
pub open spec fn annotations_upto(t: Seq<char>, s: Seq<Span>, k: int) -> Result<
    Seq<AnnotationModel>,
    AnnotationErr,
>
    decreases k,
{
    if k <= 0 {
        Ok(seq![])
    } else {
        match annotations_upto(t, s, k - 1) {
            Err(e) => Err(e),
            Ok(v) => {
                let sp = s[k - 1];
                if !is_marker(t, sp) {
                    Ok(v)
                } else if !well_formed_marker(t, sp) {
                    Err(AnnotationErr::Malformed(sp.start as int))
                } else {
                    let n = t.subrange(name_start(t, sp), name_end(t, sp));
                    let d = annotation_index_from(v, n, 0);
                    if d >= 0 {
                        Err(AnnotationErr::Duplicate(n, v[d].offset, sp.start as int))
                    } else {
                        Ok(v.push(AnnotationModel { name: n, offset: sp.start as int, index: k - 1 }))
                    }
                }
            },
        }
    }
}

pub open spec fn annotations(t: Seq<char>, s: Seq<Span>) -> Result<Seq<AnnotationModel>, AnnotationErr> {
    annotations_upto(t, s, s.len() as int)
}

/// The spans of the body of the `i`-th statement: from after its
/// annotation up to the next annotation or the end.
pub open spec fn body_end(v: Seq<AnnotationModel>, s: Seq<Span>, i: int) -> int {
    if i + 1 < v.len() {
        v[i + 1].index
    } else {
        s.len() as int
    }
}

pub open spec fn body_spans(v: Seq<AnnotationModel>, s: Seq<Span>, i: int) -> Seq<Span> {
    s.subrange(v[i].index + 1, body_end(v, s, i))
}

pub proof fn lemma_annotations_error_sticks(t: Seq<char>, s: Seq<Span>, k: int, m: int)
    requires
        0 < k <= m,
        annotations_upto(t, s, k) is Err,
    ensures
        annotations_upto(t, s, m) == annotations_upto(t, s, k),
    decreases m - k,
{
    if m > k {
        lemma_annotations_error_sticks(t, s, k, m - 1);
        reveal(annotations_upto);
    }
}

/// The annotations found among the first `k` spans are in order and point
/// at spans before `k`.
pub proof fn lemma_annotations_ordered(t: Seq<char>, s: Seq<Span>, k: int)
    requires
        0 <= k <= s.len(),
    ensures
        annotations_upto(t, s, k) matches Ok(v) ==> (forall|i: int|
            0 <= i < v.len() ==> 0 <= #[trigger] v[i].index < k) && (forall|i: int|
            0 < i < v.len() ==> v[i - 1].index < #[trigger] v[i].index),
    decreases k,
{
    reveal(annotations_upto);
    if k > 0 {
        lemma_annotations_ordered(t, s, k - 1);
    }
}

fn skip_blank_exec(t: &Vec<char>, i: usize, end: usize) -> (r: usize)
    requires
        i <= end <= t@.len(),
    ensures
        r as int == skip_blank(t@, i as int, end as int),
        i <= r <= end,
{
    let mut k = i;
    while k < end && (t[k] == ' ' || t[k] == '\t')
        invariant
            i <= k <= end <= t@.len(),
            skip_blank(t@, k as int, end as int) == skip_blank(t@, i as int, end as int),
        decreases end - k,
    {
        k = k + 1;
    }
    k
}

fn ident_run_exec(t: &Vec<char>, i: usize, end: usize) -> (r: usize)
    requires
        i <= end <= t@.len(),
    ensures
        r as int == ident_run(t@, i as int, end as int),
        i <= r <= end,
{
    let mut k = i;
    while k < end && (('a' <= t[k] && t[k] <= 'z') || ('A' <= t[k] && t[k] <= 'Z') || t[k] == '_'
        || ('0' <= t[k] && t[k] <= '9'))
        invariant
            i <= k <= end <= t@.len(),
            ident_run(t@, k as int, end as int) == ident_run(t@, i as int, end as int),
        decreases end - k,
    {
        k = k + 1;
    }
    k
}

pub open spec fn annotation_models(v: Seq<Annotation>) -> Seq<AnnotationModel> {
    v.map_values(|a: Annotation| a@)
}

/// The error of the library that reports an annotation error.
pub open spec fn reports(e: ParseError, a: AnnotationErr) -> bool {
    match (e, a) {
        (ParseError::Malformed { offset }, AnnotationErr::Malformed(o)) => offset == o,
        (ParseError::Duplicate { name, first, second }, AnnotationErr::Duplicate(n, f, g)) => name@
            == n && first == f && second == g,
        _ => false,
    }
}

fn is_marker_exec(t: &Vec<char>, sp: Span) -> (r: bool)
    requires
        sp.start < sp.end <= t@.len(),
    ensures
        r == is_marker(t@, sp),
{
    if sp.kind != SpanKind::LineComment || sp.end - sp.start < 2 {
        return false;
    }
    let m = skip_blank_exec(t, sp.start + 2, sp.end);
    if sp.end - m < 5 {
        return false;
    }
    let r = t[m] == 'n' && t[m + 1] == 'a' && t[m + 2] == 'm' && t[m + 3] == 'e' && t[m + 4] == ':';
    assert(r == (t@.subrange(m as int, m + 5) =~= seq!['n', 'a', 'm', 'e', ':']));
    r
}

/// The bounds of the name of a marker comment, if it is well formed.
fn marker_name(t: &Vec<char>, sp: Span) -> (r: Option<(usize, usize)>)
    requires
        sp.start < sp.end <= t@.len(),
        is_marker(t@, sp),
    ensures
        r is Some <==> well_formed_marker(t@, sp),
        r matches Some((s, e)) ==> s == name_start(t@, sp) && e == name_end(t@, sp) && s <= e
            <= t@.len(),
{
    let m = skip_blank_exec(t, sp.start + 2, sp.end);
    let s = skip_blank_exec(t, m + 5, sp.end);
    let e = ident_run_exec(t, s, sp.end);
    if s >= e || !(('a' <= t[s] && t[s] <= 'z') || ('A' <= t[s] && t[s] <= 'Z') || t[s] == '_') {
        return None;
    }
    let mut k = e;
    while k < sp.end
        invariant
            e <= k <= sp.end <= t@.len(),
            s as int == name_start(t@, sp),
            e as int == name_end(t@, sp),
            s < e,
            is_ident_start(t@[s as int]),
            forall|i: int| e <= i < k ==> is_ws(#[trigger] t@[i]),
        decreases sp.end - k,
    {
        let c = t[k];
        if !(c == ' ' || c == '\t' || c == '\n' || c == '\r') {
            assert(!is_ws(t@[k as int]));
            return None;
        }
        k = k + 1;
    }
    Some((s, e))
}

fn find_annotation(v: &Vec<Annotation>, n: &String) -> (r: Option<usize>)
    ensures
        r matches Some(j) ==> annotation_index_from(annotation_models(v@), n@, 0) == j as int && j
            < v@.len(),
        r is None ==> annotation_index_from(annotation_models(v@), n@, 0) == -1,
{
    let ghost m = annotation_models(v@);
    let mut j: usize = 0;
    while j < v.len()
        invariant
            j <= v@.len(),
            m == annotation_models(v@),
            annotation_index_from(m, n@, j as int) == annotation_index_from(m, n@, 0),
        decreases v@.len() - j,
    {
        if v[j].name == *n {
            return Some(j);
        }
        j = j + 1;
    }
    None
}

/// Finds the statement annotations among the spans of `t`.
fn find_annotations(t: &Vec<char>, spans: &Vec<Span>) -> (r: Result<Vec<Annotation>, ParseError>)
    requires
        spans_chain(t@, spans@),
    ensures
        r matches Ok(v) ==> annotations(t@, spans@) == Ok::<Seq<AnnotationModel>, AnnotationErr>(
            annotation_models(v@),
        ),
        r matches Err(e) ==> annotations(t@, spans@) matches Err(a) && reports(e, a),
{
    let mut v: Vec<Annotation> = Vec::new();
    let mut k: usize = 0;
    assert(annotation_models(v@) =~= Seq::<AnnotationModel>::empty());
    assert(annotations_upto(t@, spans@, 0) == Ok::<Seq<AnnotationModel>, AnnotationErr>(seq![]))
        by {
        reveal(annotations_upto);
    }
    while k < spans.len()
        invariant
            spans_chain(t@, spans@),
            k <= spans@.len(),
            annotations_upto(t@, spans@, k as int) == Ok::<Seq<AnnotationModel>, AnnotationErr>(
                annotation_models(v@),
            ),
        decreases spans@.len() - k,
    {
        let sp = spans[k];
        let ghost before = annotation_models(v@);
        proof {
            assert(spans@[k as int] == sp);
            reveal(annotations_upto);
        }
        if is_marker_exec(t, sp) {
            match marker_name(t, sp) {
                None => {
                    proof {
                        lemma_annotations_error_sticks(t@, spans@, k + 1, spans@.len() as int);
                    }
                    return Err(ParseError::Malformed { offset: sp.start });
                },
                Some((s, e)) => {
                    let name = string_of_range(t, s, e);
                    if let Some(d) = find_annotation(&v, &name) {
                        proof {
                            lemma_annotations_error_sticks(t@, spans@, k + 1, spans@.len() as int);
                        }
                        return Err(ParseError::Duplicate { name, first: v[d].offset, second: sp.start });
                    }
                    let a = Annotation { name, offset: sp.start, index: k };
                    v.push(a);
                    assert(annotation_models(v@) =~= before.push(a@));
                },
            }
        }
        k = k + 1;
    }
    Ok(v)
}

/// The statement `st` is the analysis of the `i`-th annotated statement.
pub open spec fn is_statement(
    t: Seq<char>,
    p: Seq<char>,
    v: Seq<AnnotationModel>,
    s: Seq<Span>,
    i: int,
    st: Statement,
) -> bool {
    &&& st.name@ == v[i].name
    &&& analyze(t, p, body_spans(v, s, i)) == Ok::<Analysis, ConflictModel>(st.analysis())
    &&& analysis_wf(st.analysis())
}

fn copy_spans(s: &Vec<Span>, lo: usize, hi: usize) -> (r: Vec<Span>)
    requires
        lo <= hi <= s@.len(),
    ensures
        r@ == s@.subrange(lo as int, hi as int),
{
    let mut r: Vec<Span> = Vec::new();
    let mut k = lo;
    while k < hi
        invariant
            lo <= k <= hi <= s@.len(),
            r@ == s@.subrange(lo as int, k as int),
        decreases hi - k,
    {
        r.push(s[k]);
        assert(r@ =~= s@.subrange(lo as int, k + 1));
        k = k + 1;
    }
    r
}

/// Analyses the statement of the `i`-th annotation.
fn statement_at(t: &Vec<char>, spans: &Vec<Span>, anns: &Vec<Annotation>, i: usize, prefix: &str) -> (r: Result<Statement, RoleConflict>)
    requires
        i < anns@.len(),
        spans_chain(t@, spans@),
        t@.len() * (prefix@.len() + 21) <= usize::MAX,
        forall|k: int| 0 <= k < anns@.len() ==> 0 <= #[trigger] anns@[k].index < spans@.len(),
        forall|k: int| 0 < k < anns@.len() ==> anns@[k - 1].index < #[trigger] anns@[k].index,
    ensures
        r matches Ok(st) ==> is_statement(t@, prefix@, annotation_models(anns@), spans@, i as int, st),
        r matches Err(c) ==> analyze(t@, prefix@, body_spans(annotation_models(anns@), spans@, i as int))
            == Err::<Analysis, ConflictModel>(c@),
{
    let ghost v = annotation_models(anns@);
    let ghost s = spans@;
    assert(v[i as int].index == anns@[i as int].index);
    assert(anns@[i as int].index < spans@.len());
    let n_spans = spans.len();
    let lo = anns[i].index + 1;
    let hi = if i < anns.len() - 1 {
        anns[i + 1].index
    } else {
        n_spans
    };
    proof {
        if i + 1 < anns.len() {
            assert(v[i + 1].index == anns@[i + 1].index);
            assert(anns@[i as int].index < anns@[i + 1].index);
        }
    }
    let body = copy_spans(spans, lo, hi);
    assert(body@ == body_spans(v, s, i as int));
    assert forall|j: int| 0 < j < body@.len() implies #[trigger] body@[j].start == body@[j
        - 1].end by {
        assert(body@[j] == s[lo + j]);
        assert(body@[j - 1] == s[lo + j - 1]);
    }
    assert forall|j: int| 0 <= j < body@.len() implies #[trigger] body@[j].start < body@[j].end
        <= t@.len() by {
        assert(body@[j] == s[lo + j]);
    }
    assert forall|j: int| 0 <= j < body@.len() implies crate::lexer::token_at(t@, body@[j].start as int)
        == Ok::<(SpanKind, int), int>((#[trigger] body@[j].kind, body@[j].end as int)) by {
        assert(body@[j] == s[lo + j]);
    }
    let name = anns[i].name.clone();
    assert(v[i as int].name == anns@[i as int].name@);
    classify(name, t, &body, prefix)
}

/// Analyses the statement of each annotation in turn.
fn statements_of(t: &Vec<char>, spans: &Vec<Span>, anns: &Vec<Annotation>, prefix: &str) -> (r: Result<Vec<Statement>, RoleConflict>)
    requires
        spans_chain(t@, spans@),
        t@.len() * (prefix@.len() + 21) <= usize::MAX,
        forall|k: int| 0 <= k < anns@.len() ==> 0 <= #[trigger] anns@[k].index < spans@.len(),
        forall|k: int| 0 < k < anns@.len() ==> anns@[k - 1].index < #[trigger] anns@[k].index,
    ensures
        r matches Ok(sts) ==> sts@.len() == anns@.len() && forall|i: int|
            0 <= i < anns@.len() ==> is_statement(t@, prefix@, annotation_models(anns@), spans@, i, #[trigger] sts@[i]),
        r matches Err(c) ==> exists|i: int|
            0 <= i < anns@.len() && analyze(t@, prefix@, #[trigger] body_spans(annotation_models(anns@), spans@, i))
                == Err::<Analysis, ConflictModel>(c@),
{
    let ghost v = annotation_models(anns@);
    let ghost s = spans@;
    let mut sts: Vec<Statement> = Vec::new();
    let mut i: usize = 0;
    while i < anns.len()
        invariant
            i <= anns@.len(),
            v == annotation_models(anns@),
            v.len() == anns@.len(),
            s == spans@,
            spans_chain(t@, s),
            t@.len() * (prefix@.len() + 21) <= usize::MAX,
            forall|k: int| 0 <= k < anns@.len() ==> 0 <= #[trigger] anns@[k].index < spans@.len(),
            forall|k: int| 0 < k < anns@.len() ==> anns@[k - 1].index < #[trigger] anns@[k].index,
            sts@.len() == i,
            forall|k: int| 0 <= k < i ==> is_statement(t@, prefix@, v, s, k, #[trigger] sts@[k]),
            forall|k: int| 0 <= k < i ==> analyze(t@, prefix@, #[trigger] body_spans(v, s, k)) is Ok,
        decreases anns@.len() - i,
    {
        let res = statement_at(&t, &spans, &anns, i, prefix);
        match res {
            Ok(st) => {
                sts.push(st);
                assert(sts@[i as int] == st);
            },
            Err(c) => {
                return Err(c);
            },
        }
        i = i + 1;
    }
    Ok(sts)
}

/// Analyses a file of SQL: splits it into statements at `-- name: <ident>`
/// annotations and classifies the parameters of each one, with scalar
/// placeholders written as `prefix` followed by the ordinal. Text before the
/// first annotation belongs to no statement.
pub fn parse(text: &str, prefix: &str) -> (r: Result<Vec<Statement>, ParseError>)
    requires
        text@.len() * (prefix@.len() + 21) <= usize::MAX,
    ensures
        lex_spec(text@) matches Err(e) ==> r matches Err(ParseError::Lex(x)) && x == e,
        lex_spec(text@) matches Ok(s) ==> match annotations(text@, s) {
            Err(a) => r matches Err(e) && reports(e, a),
            Ok(v) => if v.len() == 0 {
                r matches Err(ParseError::NoStatements)
            } else {
                &&& r is Ok <==> forall|i: int|
                    0 <= i < v.len() ==> analyze(text@, prefix@, #[trigger] body_spans(v, s, i)) is Ok
                &&& r matches Ok(sts) ==> sts@.len() == v.len() && forall|i: int|
                    0 <= i < v.len() ==> is_statement(text@, prefix@, v, s, i, #[trigger] sts@[i])
                &&& r matches Err(e) ==> e matches ParseError::Conflict(c) && exists|i: int|
                    0 <= i < v.len() && analyze(text@, prefix@, #[trigger] body_spans(v, s, i))
                        == Err::<Analysis, ConflictModel>(c@)
            },
        },
{
    let t = chars_of(text);
    let spans = match lex_chars(&t) {
        Ok(s) => s,
        Err(e) => {
            return Err(ParseError::Lex(e));
        },
    };
    proof {
        lemma_lex_from_tiles(t@, 0);
    }
    let anns = find_annotations(&t, &spans);
    let anns = match anns {
        Ok(v) => v,
        Err(e) => {
            return Err(e);
        },
    };
    let ghost v = annotation_models(anns@);
    let ghost s = spans@;
    assert(lex_spec(text@) == Ok::<Seq<Span>, LexError>(s));
    if anns.len() == 0 {
        return Err(ParseError::NoStatements);
    }
    proof {
        lemma_annotations_ordered(t@, s, s.len() as int);
        assert forall|k: int| 0 <= k < anns@.len() implies 0 <= #[trigger] anns@[k].index < spans@.len() by {
            assert(v[k].index == anns@[k].index);
        }
        assert forall|k: int| 0 < k < anns@.len() implies anns@[k - 1].index < #[trigger] anns@[k].index by {
            assert(v[k].index == anns@[k].index);
            assert(v[k - 1].index == anns@[k - 1].index);
        }
    }
    match statements_of(&t, &spans, &anns, prefix) {
        Ok(sts) => {
            assert forall|i: int| 0 <= i < v.len() implies analyze(text@, prefix@, #[trigger] body_spans(v, s, i)) is Ok by {
                assert(is_statement(t@, prefix@, v, s, i, sts@[i]));
            }
            Ok(sts)
        },
        Err(c) => Err(ParseError::Conflict(c)),
    }
}

} // verus!
