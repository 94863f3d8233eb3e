//! Classifies the parameter tokens of one statement as scalar or list
//! parameters, bakes scalar placeholders into the template and records the
//! splice points of list parameters.
use vstd::prelude::*;
use vstd::string::StringExecFns;
use crate::lexer::{Span, SpanKind, is_ident_char, spans_chain, token_at};
use crate::text::{decimal, decimal_chars, placeholder, push_range, string_of_range, lemma_decimal_len};

verus! {

/// A scalar parameter. Its ordinal is its position in the statement's
/// scalar list plus one; `source` is the offset of its first sighting.
#[derive(Clone, Debug)]
pub struct ScalarParam {
    pub name: String,
    pub source: usize,
}

/// One occurrence of a list parameter: the template keeps its token at
/// `[offset, end)`, which assembly replaces by placeholders; `source` is the
/// occurrence's offset in the source text, and `duplicate` marks every
/// occurrence of a name after its first.
#[derive(Clone, Debug)]
pub struct ListParam {
    pub name: String,
    pub offset: usize,
    pub end: usize,
    pub source: usize,
    pub duplicate: bool,
}

/// A name used both as a scalar and as a list parameter, with the offsets of
/// its first sighting and of the conflicting one.
#[derive(Clone, Debug)]
pub struct RoleConflict {
    pub name: String,
    pub first: usize,
    pub second: usize,
}

/// The mathematical value of a [`ScalarParam`].
pub struct ScalarModel {
    pub name: Seq<char>,
    pub source: int,
}

/// The mathematical value of a [`ListParam`].
pub struct ListModel {
    pub name: Seq<char>,
    pub offset: int,
    pub end: int,
    pub source: int,
    pub duplicate: bool,
}

/// The mathematical value of a [`RoleConflict`].
pub struct ConflictModel {
    pub name: Seq<char>,
    pub first: int,
    pub second: int,
}

/// The outcome of classifying a statement: its template and its parameters.
pub struct Analysis {
    pub template: Seq<char>,
    pub scalars: Seq<ScalarModel>,
    pub lists: Seq<ListModel>,
}

impl View for ScalarParam {
    type V = ScalarModel;

    open spec fn view(&self) -> ScalarModel {
        ScalarModel { name: self.name@, source: self.source as int }
    }
}

impl View for ListParam {
    type V = ListModel;

    open spec fn view(&self) -> ListModel {
        ListModel {
            name: self.name@,
            offset: self.offset as int,
            end: self.end as int,
            source: self.source as int,
            duplicate: self.duplicate,
        }
    }
}

impl View for RoleConflict {
    type V = ConflictModel;

    open spec fn view(&self) -> ConflictModel {
        ConflictModel { name: self.name@, first: self.first as int, second: self.second as int }
    }
}

pub open spec fn scalar_models(v: Seq<ScalarParam>) -> Seq<ScalarModel> {
    v.map_values(|x: ScalarParam| x@)
}

pub open spec fn list_models(v: Seq<ListParam>) -> Seq<ListModel> {
    v.map_values(|x: ListParam| x@)
}

pub open spec fn is_ws(c: char) -> bool {
    c == ' ' || c == '\t' || c == '\n' || c == '\r'
}

/// The offset of the last non-blank character before `i`, or -1.
pub open spec fn prev_solid(t: Seq<char>, i: int) -> int
    decreases i,
{
    if i <= 0 || i > t.len() {
        -1
    } else if is_ws(t[i - 1]) {
        prev_solid(t, i - 1)
    } else {
        i - 1
    }
}

/// The offset of the first non-blank character at or after `i`, or the end of text.
pub open spec fn next_solid(t: Seq<char>, i: int) -> int
    decreases t.len() - i,
{
    if i < 0 || i >= t.len() {
        t.len() as int
    } else if is_ws(t[i]) {
        next_solid(t, i + 1)
    } else {
        i
    }
}

/// The non-blank text that ends at `c` is the keyword `IN`, in any case.
pub open spec fn in_keyword_at(t: Seq<char>, c: int) -> bool {
    &&& 1 <= c < t.len()
    &&& (t[c] == 'n' || t[c] == 'N')
    &&& (t[c - 1] == 'i' || t[c - 1] == 'I')
    &&& (c == 1 || !is_ident_char(t[c - 2]))
}

/// The token `[s, e)` is the sole content of a parenthesis that directly
/// follows `IN`.
pub open spec fn is_list_token(t: Seq<char>, s: int, e: int) -> bool {
    let a = prev_solid(t, s);
    let b = next_solid(t, e);
    &&& 0 <= a
    &&& t[a] == '('
    &&& b < t.len()
    &&& t[b] == ')'
    &&& in_keyword_at(t, prev_solid(t, a))
}

/// The first index from `i` on of a scalar named `n`, or -1.
pub open spec fn scalar_index_from(sc: Seq<ScalarModel>, n: Seq<char>, i: int) -> int
    decreases sc.len() - i,
{
    if i < 0 || i >= sc.len() {
        -1
    } else if sc[i].name == n {
        i
    } else {
        scalar_index_from(sc, n, i + 1)
    }
}

/// The first index from `i` on of a list occurrence named `n`, or -1.
pub open spec fn list_index_from(ls: Seq<ListModel>, n: Seq<char>, i: int) -> int
    decreases ls.len() - i,
{
    if i < 0 || i >= ls.len() {
        -1
    } else if ls[i].name == n {
        i
    } else {
        list_index_from(ls, n, i + 1)
    }
}

pub open spec fn scalar_index(sc: Seq<ScalarModel>, n: Seq<char>) -> int {
    scalar_index_from(sc, n, 0)
}

pub open spec fn list_index(ls: Seq<ListModel>, n: Seq<char>) -> int {
    list_index_from(ls, n, 0)
}

/// The name of a parameter token: the characters after its colon.
pub open spec fn token_name(t: Seq<char>, sp: Span) -> Seq<char> {
    t.subrange(sp.start + 1, sp.end as int)
}

/// Takes one more span into the analysis.
#[verifier::opaque]
pub open spec fn step(t: Seq<char>, p: Seq<char>, a: Analysis, sp: Span) -> Result<
    Analysis,
    ConflictModel,
> {
    if sp.kind != SpanKind::Param {
        Ok(Analysis { template: a.template + t.subrange(sp.start as int, sp.end as int), ..a })
    } else {
        let n = token_name(t, sp);
        let si = scalar_index(a.scalars, n);
        let li = list_index(a.lists, n);
        if is_list_token(t, sp.start as int, sp.end as int) {
            if si >= 0 {
                Err(ConflictModel { name: n, first: a.scalars[si].source, second: sp.start as int })
            } else {
                let occ = ListModel {
                    name: n,
                    offset: a.template.len() as int,
                    end: (a.template + t.subrange(sp.start as int, sp.end as int)).len() as int,
                    source: sp.start as int,
                    duplicate: li >= 0,
                };
                Ok(
                    Analysis {
                        template: a.template + t.subrange(sp.start as int, sp.end as int),
                        scalars: a.scalars,
                        lists: a.lists.push(occ),
                    },
                )
            }
        } else if li >= 0 {
            Err(ConflictModel { name: n, first: a.lists[li].source, second: sp.start as int })
        } else if si >= 0 {
            Ok(Analysis { template: a.template + placeholder(p, (si + 1) as nat), ..a })
        } else {
            Ok(
                Analysis {
                    template: a.template + placeholder(p, (a.scalars.len() + 1) as nat),
                    scalars: a.scalars.push(ScalarModel { name: n, source: sp.start as int }),
                    lists: a.lists,
                },
            )
        }
    }
}

/// The analysis after the first `k` spans.
#[verifier::opaque]
pub open spec fn analyze_upto(t: Seq<char>, p: Seq<char>, s: Seq<Span>, k: int) -> Result<
    Analysis,
    ConflictModel,
>
    decreases k,
{
    if k <= 0 {
        Ok(Analysis { template: seq![], scalars: seq![], lists: seq![] })
    } else {
        match analyze_upto(t, p, s, k - 1) {
            Ok(a) => step(t, p, a, s[k - 1]),
            Err(e) => Err(e),
        }
    }
}

/// The analysis of a statement made of the spans `s` of `t`, with scalar
/// placeholders written as `p` followed by the ordinal.
pub open spec fn analyze(t: Seq<char>, p: Seq<char>, s: Seq<Span>) -> Result<
    Analysis,
    ConflictModel,
> {
    analyze_upto(t, p, s, s.len() as int)
}

/// Once the analysis has failed, further spans keep the same error.
pub proof fn lemma_error_sticks(t: Seq<char>, p: Seq<char>, s: Seq<Span>, k: int, m: int)
    requires
        0 < k <= m,
        analyze_upto(t, p, s, k) is Err,
    ensures
        analyze_upto(t, p, s, m) == analyze_upto(t, p, s, k),
    decreases m - k,
{
    if m > k {
        lemma_error_sticks(t, p, s, k, m - 1);
        reveal(analyze_upto);
    }
}

/// The list occurrences have offsets in order inside the template, and
/// exactly the later occurrences of a name are duplicates.
pub open spec fn analysis_wf(a: Analysis) -> bool {
    let ls = a.lists;
    &&& forall|j: int|
        0 <= j < ls.len() ==> #[trigger] ls[j].offset <= ls[j].end <= a.template.len()
    &&& forall|j: int| 0 < j < ls.len() ==> ls[j - 1].end <= #[trigger] ls[j].offset
    &&& forall|j: int|
        0 <= j < ls.len() ==> 0 <= list_index(ls, #[trigger] ls[j].name) <= j && (
        ls[j].duplicate <==> list_index(ls, ls[j].name) < j)
}

pub proof fn lemma_list_index_from(ls: Seq<ListModel>, n: Seq<char>, i: int)
    requires
        0 <= i <= ls.len(),
    ensures
        list_index_from(ls, n, i) >= 0 ==> i <= list_index_from(ls, n, i) < ls.len()
            && ls[list_index_from(ls, n, i)].name == n,
        list_index_from(ls, n, i) < 0 ==> list_index_from(ls, n, i) == -1,
        forall|k: int| i <= k < ls.len() && ls[k].name == n ==> 0 <= list_index_from(ls, n, i) <= k,
    decreases ls.len() - i,
{
    if i < ls.len() && ls[i].name != n {
        lemma_list_index_from(ls, n, i + 1);
    }
}

pub proof fn lemma_list_index_push(ls: Seq<ListModel>, x: ListModel, n: Seq<char>, i: int)
    requires
        0 <= i <= ls.len(),
    ensures
        list_index_from(ls.push(x), n, i) == (if list_index_from(ls, n, i) >= 0 {
            list_index_from(ls, n, i)
        } else if x.name == n {
            ls.len() as int
        } else {
            -1
        }),
    decreases ls.len() - i,
{
    if i < ls.len() {
        assert(ls.push(x)[i] == ls[i]);
        if ls[i].name != n {
            lemma_list_index_push(ls, x, n, i + 1);
        }
    } else {
        assert(ls.push(x)[i] == x);
        if x.name != n {
            assert(list_index_from(ls.push(x), n, i + 1) == -1);
        }
    }
}

/// Each step keeps the analysis well formed.
pub proof fn lemma_step_wf(t: Seq<char>, p: Seq<char>, a: Analysis, sp: Span)
    requires
        analysis_wf(a),
    ensures
        step(t, p, a, sp) matches Ok(b) ==> analysis_wf(b),
{
    reveal(step);
    if let Ok(b) = step(t, p, a, sp) {
        if b.lists.len() > a.lists.len() {
            let x = b.lists.last();
            assert(b.lists == a.lists.push(x));
            assert(x.offset == a.template.len() && x.end == b.template.len());
            assert forall|j: int| 0 <= j < b.lists.len() implies #[trigger] b.lists[j].offset
                <= b.lists[j].end <= b.template.len() by {
                if j < a.lists.len() {
                    assert(b.lists[j] == a.lists[j]);
                }
            }
            assert forall|j: int| 0 < j < b.lists.len() implies b.lists[j - 1].end
                <= #[trigger] b.lists[j].offset by {
                assert(b.lists[j - 1] == a.lists[j - 1]);
                assert(a.lists[j - 1].offset <= a.lists[j - 1].end <= a.template.len());
                if j < a.lists.len() {
                    assert(b.lists[j] == a.lists[j]);
                }
            }
            assert forall|j: int| 0 <= j < b.lists.len() implies 0 <= list_index(
                b.lists,
                #[trigger] b.lists[j].name,
            ) <= j && (b.lists[j].duplicate <==> list_index(b.lists, b.lists[j].name) < j) by {
                lemma_list_index_push(a.lists, x, b.lists[j].name, 0);
                lemma_list_index_from(a.lists, b.lists[j].name, 0);
                if j < a.lists.len() {
                    assert(b.lists[j] == a.lists[j]);
                }
            }
        } else {
            assert(b.lists == a.lists);
            assert(b.template.len() >= a.template.len());
        }
    }
}

/// Every analysis that succeeds is well formed.
pub proof fn lemma_analyze_upto_wf(t: Seq<char>, p: Seq<char>, s: Seq<Span>, k: int)
    ensures
        analyze_upto(t, p, s, k) matches Ok(a) ==> analysis_wf(a),
    decreases k,
{
    reveal(analyze_upto);
    if k > 0 {
        lemma_analyze_upto_wf(t, p, s, k - 1);
        if let Ok(a) = analyze_upto(t, p, s, k - 1) {
            lemma_step_wf(t, p, a, s[k - 1]);
        }
    }
}

pub proof fn lemma_scalar_index_found(sc: Seq<ScalarModel>, n: Seq<char>, i: int)
    requires
        0 <= i <= sc.len(),
    ensures
        scalar_index_from(sc, n, i) >= 0 ==> i <= scalar_index_from(sc, n, i) < sc.len() && sc[scalar_index_from(sc, n, i)].name == n,
        forall|j: int| i <= j < sc.len() && (scalar_index_from(sc, n, i) < 0 || j < scalar_index_from(sc, n, i)) ==> #[trigger] sc[j].name != n,
    decreases sc.len() - i,
{
    if i < sc.len() && sc[i].name != n {
        lemma_scalar_index_found(sc, n, i + 1);
    }
}

pub proof fn lemma_scalar_index_is(sc: Seq<ScalarModel>, n: Seq<char>, i: int, m: int)
    requires
        0 <= i <= m < sc.len(),
        sc[m].name == n,
        forall|j: int| i <= j < m ==> #[trigger] sc[j].name != n,
    ensures
        scalar_index_from(sc, n, i) == m,
    decreases m - i,
{
    if i < m {
        lemma_scalar_index_is(sc, n, i + 1, m);
    }
}

/// A longer analysis extends a shorter one: the scalars found in the first
/// `k` spans stay, in order, among those found in the first `m`.
pub proof fn lemma_scalars_grow(t: Seq<char>, p: Seq<char>, s: Seq<Span>, k: int, m: int)
    requires
        0 <= k <= m,
        analyze_upto(t, p, s, m) is Ok,
    ensures
        analyze_upto(t, p, s, k) is Ok,
        analyze_upto(t, p, s, k)->Ok_0.scalars.len() <= analyze_upto(t, p, s, m)->Ok_0.scalars.len(),
        analyze_upto(t, p, s, m)->Ok_0.scalars.subrange(0, analyze_upto(t, p, s, k)->Ok_0.scalars.len() as int)
            == analyze_upto(t, p, s, k)->Ok_0.scalars,
    decreases m - k,
{
    reveal(analyze_upto);
    reveal(step);
    if k < m {
        lemma_scalars_grow(t, p, s, k, m - 1);
        let a = analyze_upto(t, p, s, k)->Ok_0;
        let b = analyze_upto(t, p, s, m - 1)->Ok_0;
        let c = analyze_upto(t, p, s, m)->Ok_0;
        assert(c.scalars.subrange(0, a.scalars.len() as int) =~= b.scalars.subrange(0, a.scalars.len() as int));
    } else {
        assert(analyze_upto(t, p, s, k)->Ok_0.scalars.subrange(0, analyze_upto(t, p, s, k)->Ok_0.scalars.len() as int)
            =~= analyze_upto(t, p, s, k)->Ok_0.scalars);
    }
}

/// No name is listed twice among the scalars.
pub proof fn lemma_scalars_distinct(t: Seq<char>, p: Seq<char>, s: Seq<Span>, k: int)
    requires
        analyze_upto(t, p, s, k) is Ok,
    ensures
        forall|i: int, j: int|
            0 <= i < j < analyze_upto(t, p, s, k)->Ok_0.scalars.len() ==> analyze_upto(t, p, s, k)->Ok_0.scalars[i].name
                != analyze_upto(t, p, s, k)->Ok_0.scalars[j].name,
    decreases k,
{
    reveal(analyze_upto);
    reveal(step);
    if k > 0 {
        lemma_scalars_distinct(t, p, s, k - 1);
        let a = analyze_upto(t, p, s, k - 1)->Ok_0;
        lemma_scalar_index_found(a.scalars, token_name(t, s[k - 1]), 0);
    }
}

/// A scalar name used several times gets one scalar entry, at the ordinal of
/// its first sighting, and each of its occurrences writes the placeholder of
/// that ordinal into the template.
pub proof fn lemma_scalar_occurrence(t: Seq<char>, p: Seq<char>, s: Seq<Span>, k: int)
    requires
        0 <= k < s.len(),
        analyze(t, p, s) is Ok,
        s[k].kind == SpanKind::Param,
        !is_list_token(t, s[k].start as int, s[k].end as int),
    ensures
        ({
            let fin = analyze(t, p, s)->Ok_0;
            let n = token_name(t, s[k]);
            let i = scalar_index(fin.scalars, n);
            &&& 0 <= i < fin.scalars.len()
            &&& fin.scalars[i].name == n
            &&& forall|j: int| 0 <= j < fin.scalars.len() && j != i ==> fin.scalars[j].name != n
            &&& analyze_upto(t, p, s, k + 1)->Ok_0.template == analyze_upto(t, p, s, k)->Ok_0.template
                + placeholder(p, (i + 1) as nat)
        }),
{
    let fin = analyze(t, p, s)->Ok_0;
    let n = token_name(t, s[k]);
    lemma_scalars_grow(t, p, s, k + 1, s.len() as int);
    lemma_scalars_grow(t, p, s, k, k + 1);
    lemma_scalars_distinct(t, p, s, s.len() as int);
    let a = analyze_upto(t, p, s, k)->Ok_0;
    let b = analyze_upto(t, p, s, k + 1)->Ok_0;
    assert(analyze_upto(t, p, s, k + 1) == step(t, p, a, s[k])) by {
        reveal(analyze_upto);
    }
    reveal(step);
    lemma_scalar_index_found(a.scalars, n, 0);
    let ai = scalar_index(a.scalars, n);
    let fi = if ai >= 0 { ai } else { a.scalars.len() as int };
    assert(b.scalars[fi].name == n);
    assert(fin.scalars[fi] == b.scalars[fi]);
    assert forall|j: int| 0 <= j < fi implies #[trigger] fin.scalars[j].name != n by {
        assert(fin.scalars[j] == a.scalars[j]);
    }
    lemma_scalar_index_is(fin.scalars, n, 0, fi);
}

fn is_ws_exec(c: char) -> (r: bool)
    ensures
        r == is_ws(c),
{
    c == ' ' || c == '\t' || c == '\n' || c == '\r'
}

fn prev_solid_exec(t: &Vec<char>, i: usize) -> (r: Option<usize>)
    requires
        i <= t@.len(),
    ensures
        r matches Some(a) ==> prev_solid(t@, i as int) == a as int && a < i,
        r is None ==> prev_solid(t@, i as int) == -1,
{
    let mut k = i;
    while k > 0
        invariant
            k <= i <= t@.len(),
            prev_solid(t@, k as int) == prev_solid(t@, i as int),
        decreases k,
    {
        if !is_ws_exec(t[k - 1]) {
            return Some(k - 1);
        }
        k = k - 1;
    }
    None
}

fn next_solid_exec(t: &Vec<char>, i: usize) -> (r: usize)
    requires
        i <= t@.len(),
    ensures
        r as int == next_solid(t@, i as int),
{
    let mut k = i;
    while k < t.len() && is_ws_exec(t[k])
        invariant
            i <= k <= t@.len(),
            next_solid(t@, k as int) == next_solid(t@, i as int),
        decreases t@.len() - k,
    {
        k = k + 1;
    }
    k
}

fn is_list_token_exec(t: &Vec<char>, s: usize, e: usize) -> (r: bool)
    requires
        s <= e <= t@.len(),
    ensures
        r == is_list_token(t@, s as int, e as int),
{
    let a = match prev_solid_exec(t, s) {
        Some(a) => a,
        None => return false,
    };
    if t[a] != '(' {
        return false;
    }
    let b = next_solid_exec(t, e);
    if b >= t.len() || t[b] != ')' {
        return false;
    }
    let c = match prev_solid_exec(t, a) {
        Some(c) => c,
        None => return false,
    };
    if c < 1 {
        return false;
    }
    let n = t[c];
    let i = t[c - 1];
    (n == 'n' || n == 'N') && (i == 'i' || i == 'I') && (c == 1 || !(('a' <= t[c - 2] && t[c
        - 2] <= 'z') || ('A' <= t[c - 2] && t[c - 2] <= 'Z') || t[c - 2] == '_' || ('0' <= t[c
        - 2] && t[c - 2] <= '9')))
}

fn find_scalar(sc: &Vec<ScalarParam>, n: &String) -> (r: Option<usize>)
    ensures
        r matches Some(j) ==> scalar_index(scalar_models(sc@), n@) == j as int && j < sc@.len(),
        r is None ==> scalar_index(scalar_models(sc@), n@) == -1,
{
    let ghost m = scalar_models(sc@);
    let mut j: usize = 0;
    while j < sc.len()
        invariant
            j <= sc@.len(),
            m == scalar_models(sc@),
            scalar_index_from(m, n@, j as int) == scalar_index(m, n@),
        decreases sc@.len() - j,
    {
        if sc[j].name == *n {
            return Some(j);
        }
        j = j + 1;
    }
    None
}

pub(crate) fn find_list(ls: &Vec<ListParam>, n: &String) -> (r: Option<usize>)
    ensures
        r matches Some(j) ==> list_index(list_models(ls@), n@) == j as int && j < ls@.len(),
        r is None ==> list_index(list_models(ls@), n@) == -1,
{
    let ghost m = list_models(ls@);
    let mut j: usize = 0;
    while j < ls.len()
        invariant
            j <= ls@.len(),
            m == list_models(ls@),
            list_index_from(m, n@, j as int) == list_index(m, n@),
        decreases ls@.len() - j,
    {
        if ls[j].name == *n {
            return Some(j);
        }
        j = j + 1;
    }
    None
}

/// A named statement: its template text, with scalar placeholders baked in
/// and list parameters cut out, its distinct scalar parameters in ordinal
/// order, and every list-parameter occurrence in textual order.
#[derive(Clone, Debug)]
pub struct Statement {
    pub name: String,
    pub template: String,
    pub scalars: Vec<ScalarParam>,
    pub lists: Vec<ListParam>,
}

impl Statement {
    pub open spec fn analysis(&self) -> Analysis {
        Analysis {
            template: self.template@,
            scalars: scalar_models(self.scalars@),
            lists: list_models(self.lists@),
        }
    }
}

pub open spec fn span_from(s: Seq<Span>, k: int) -> int {
    if k <= 0 {
        if s.len() > 0 {
            s[0].start as int
        } else {
            0
        }
    } else {
        s[k - 1].end as int
    }
}

/// Takes the span `sp` of `t` into the statement being built.
fn take_span(st: &mut Statement, tlen: &mut usize, t: &Vec<char>, sp: Span, prefix: &str, plen: usize) -> (r:
    Option<RoleConflict>)
    requires
        token_at(t@, sp.start as int) == Ok::<(SpanKind, int), int>((sp.kind, sp.end as int)),
        sp.start < sp.end <= t@.len(),
        *old(tlen) == old(st).template@.len(),
        plen == prefix@.len(),
        old(st).template@.len() + (sp.end - sp.start) * (prefix@.len() + 21) <= usize::MAX,
        old(st).scalars@.len() < usize::MAX,
    ensures
        step(t@, prefix@, old(st).analysis(), sp) matches Ok(a) ==> r is None
            && final(st).analysis() == a,
        step(t@, prefix@, old(st).analysis(), sp) matches Err(e) ==> r matches Some(c) && c@
            == e,
        final(st).name == old(st).name,
        *final(tlen) == final(st).template@.len(),
        final(st).template@.len() <= old(st).template@.len() + (sp.end - sp.start) * (
        prefix@.len() + 21),
        final(st).scalars@.len() <= old(st).scalars@.len() + 1,
{
    let ghost p = prefix@;
    let ghost big = prefix@.len() + 21;
    let ghost a = old(st).analysis();
    reveal(step);
    assert((sp.end - sp.start) * big >= big) by (nonlinear_arith)
        requires
            sp.end - sp.start >= 1,
            big >= 1,
    ;
    assert((sp.end - sp.start) * big >= (sp.end - sp.start)) by (nonlinear_arith)
        requires
            sp.end - sp.start >= 1,
            big >= 1,
    ;
    if sp.kind != SpanKind::Param {
        push_range(&mut st.template, t, sp.start, sp.end);
        *tlen = *tlen + (sp.end - sp.start);
        return None;
    }
    let n = string_of_range(t, sp.start + 1, sp.end);
    let si = find_scalar(&st.scalars, &n);
    let li = find_list(&st.lists, &n);
    if is_list_token_exec(t, sp.start, sp.end) {
        match si {
            Some(j) => Some(RoleConflict { name: n, first: st.scalars[j].source, second: sp.start }),
            None => {
                push_range(&mut st.template, t, sp.start, sp.end);
                let occ = ListParam {
                    name: n,
                    offset: *tlen,
                    end: *tlen + (sp.end - sp.start),
                    source: sp.start,
                    duplicate: li.is_some(),
                };
                *tlen = occ.end;
                st.lists.push(occ);
                assert(list_models(st.lists@) =~= a.lists.push(occ@));
                None
            },
        }
    } else {
        if let Some(j) = li {
            return Some(RoleConflict { name: n, first: st.lists[j].source, second: sp.start });
        }
        let ord: usize = match si {
            Some(j) => j + 1,
            None => st.scalars.len() + 1,
        };
        let digits = decimal_chars(ord);
        proof {
            lemma_decimal_len(ord as nat);
        }
        st.template.append(prefix);
        push_range(&mut st.template, &digits, 0, digits.len());
        assert(digits@.subrange(0, digits@.len() as int) =~= digits@);
        assert(st.template@ =~= a.template + placeholder(p, ord as nat));
        *tlen = *tlen + plen + digits.len();
        if si.is_none() {
            let sc = ScalarParam { name: n, source: sp.start };
            st.scalars.push(sc);
            assert(scalar_models(st.scalars@) =~= a.scalars.push(sc@));
        }
        None
    }
}

/// Classifies the parameter tokens among the spans `spans` of `t`, and builds
/// the statement `name` from them, with scalar placeholders written as
/// `prefix` followed by the ordinal.
#[verifier::rlimit(40)]
pub fn classify(name: String, t: &Vec<char>, spans: &Vec<Span>, prefix: &str) -> (r: Result<
    Statement,
    RoleConflict,
>)
    requires
        spans_chain(t@, spans@),
        t@.len() * (prefix@.len() + 21) <= usize::MAX,
    ensures
        r matches Ok(st) ==> analyze(t@, prefix@, spans@) == Ok::<Analysis, ConflictModel>(
            st.analysis(),
        ) && st.name == name && analysis_wf(st.analysis()),
        r matches Err(e) ==> analyze(t@, prefix@, spans@) == Err::<Analysis, ConflictModel>(e@),
{
    let ghost p = prefix@;
    let ghost big = prefix@.len() + 21;
    let mut st = Statement { name, template: String::new(), scalars: Vec::new(), lists: Vec::new() };
    let mut tlen: usize = 0;
    let plen = prefix.unicode_len();
    let mut k: usize = 0;
    assert(analyze_upto(t@, p, spans@, 0) == Ok::<Analysis, ConflictModel>(
        Analysis { template: seq![], scalars: seq![], lists: seq![] },
    )) by {
        reveal(analyze_upto);
    }
    assert(st.template@ =~= Seq::<char>::empty());
    assert(scalar_models(st.scalars@) =~= Seq::<ScalarModel>::empty());
    assert(list_models(st.lists@) =~= Seq::<ListModel>::empty());
    while k < spans.len()
        invariant
            spans_chain(t@, spans@),
            t@.len() * big <= usize::MAX,
            big == p.len() + 21,
            p == prefix@,
            plen == p.len(),
            k <= spans@.len(),
            st.name == name,
            tlen == st.template@.len(),
            st.scalars@.len() <= k,
            analyze_upto(t@, p, spans@, k as int) == Ok::<Analysis, ConflictModel>(st.analysis()),
            0 <= span_from(spans@, 0) <= span_from(spans@, k as int) <= t@.len(),
            st.template@.len() <= (span_from(spans@, k as int) - span_from(spans@, 0)) * big,
        decreases spans@.len() - k,
    {
        let sp = spans[k];
        let ghost base = span_from(spans@, 0);
        let ghost cur = span_from(spans@, k as int);
        let ghost before = st.analysis();
        proof {
            assert(spans@[k as int] == sp);
            assert(sp.start < sp.end <= t@.len());
            assert(token_at(t@, sp.start as int) == Ok::<(SpanKind, int), int>(
                (sp.kind, sp.end as int),
            ));
            if k > 0 {
                assert(spans@[k as int].start == spans@[k - 1].end);
            }
            assert(sp.start as int == cur);
            assert((sp.end - base) * big == (cur - base) * big + (sp.end - cur) * big)
                by (nonlinear_arith);
            assert((sp.end - base) * big <= t@.len() * big) by (nonlinear_arith)
                requires
                    sp.end - base <= t@.len(),
                    big >= 1,
            ;
        }
        let res = take_span(&mut st, &mut tlen, t, sp, prefix, plen);
        assert(analyze_upto(t@, p, spans@, k + 1) == step(t@, p, before, sp)) by {
            reveal(analyze_upto);
        }
        if let Some(c) = res {
            proof {
                lemma_error_sticks(t@, p, spans@, k + 1, spans@.len() as int);
            }
            return Err(c);
        }
        assert(span_from(spans@, k + 1) == sp.end);
        k = k + 1;
    }
    proof {
        lemma_analyze_upto_wf(t@, p, spans@, k as int);
    }
    Ok(st)
}

} // verus!
