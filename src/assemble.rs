//! Assembles the final SQL text and the ordered argument sequence of a
//! statement from caller bindings, splicing list parameters into the template.
use vstd::prelude::*;
use vstd::string::StringExecFns;
use crate::classify::{Analysis, ListModel, ScalarModel, Statement, analysis_wf, lemma_list_index_from, list_index, list_models, scalar_models};
use crate::text::{chars_of, placeholder, push_range};

verus! {

/// A value bound to a scalar parameter.
pub struct ScalarArg<'a, V> {
    pub name: String,
    pub value: &'a V,
}

/// The values bound to a list parameter, in order.
pub struct ListArg<'a, V> {
    pub name: String,
    pub values: Vec<&'a V>,
}

/// A parameter of the statement that has no binding.
#[derive(Clone, Debug)]
pub struct BindingError {
    pub name: String,
}

/// `n` placeholders numbered from `start`, separated by commas.
pub open spec fn render_list(p: Seq<char>, start: nat, n: nat) -> Seq<char>
    decreases n,
{
    if n == 0 {
        seq![]
    } else if n == 1 {
        placeholder(p, start)
    } else {
        render_list(p, start, (n - 1) as nat) + seq![','] + placeholder(p, (start + n - 1) as nat)
    }
}

/// Relies on `include_sql_helper::push`: it writes one placeholder per value,
/// numbered on from the arguments already collected and separated by commas,
/// and appends the values to the arguments.
#[verifier::external_body]
fn push_list<'a, V>(values: &[&'a V], prefix: &str, sql: &mut String, args: &mut Vec<&'a V>)
    requires
        old(args)@.len() + values@.len() + 1 <= usize::MAX,
    ensures
        final(sql)@ == old(sql)@ + render_list(
            prefix@,
            (old(args)@.len() + 1) as nat,
            values@.len() as nat,
        ),
        final(args)@ == old(args)@ + values@,
{
    include_sql_helper::push(values, prefix, sql, args)
}

/// The first index from `i` on of a scalar binding named `n`, or -1.
pub open spec fn scalar_arg_index<'a, V>(b: Seq<ScalarArg<'a, V>>, n: Seq<char>, i: int) -> int
    decreases b.len() - i,
{
    if i < 0 || i >= b.len() {
        -1
    } else if b[i].name@ == n {
        i
    } else {
        scalar_arg_index(b, n, i + 1)
    }
}

/// The first index from `i` on of a list binding named `n`, or -1.
pub open spec fn list_arg_index<'a, V>(b: Seq<ListArg<'a, V>>, n: Seq<char>, i: int) -> int
    decreases b.len() - i,
{
    if i < 0 || i >= b.len() {
        -1
    } else if b[i].name@ == n {
        i
    } else {
        list_arg_index(b, n, i + 1)
    }
}

/// The values bound to the list parameter `n`.
pub open spec fn list_values<'a, V>(b: Seq<ListArg<'a, V>>, n: Seq<char>) -> Seq<&'a V> {
    let i = list_arg_index(b, n, 0);
    if 0 <= i < b.len() {
        b[i].values@
    } else {
        seq![]
    }
}

/// Every scalar and every list parameter of the statement has a binding.
pub open spec fn all_bound<'a, V>(
    sc: Seq<ScalarModel>,
    ls: Seq<ListModel>,
    sb: Seq<ScalarArg<'a, V>>,
    lb: Seq<ListArg<'a, V>>,
) -> bool {
    &&& forall|i: int| 0 <= i < sc.len() ==> scalar_arg_index(sb, #[trigger] sc[i].name, 0) >= 0
    &&& forall|j: int| 0 <= j < ls.len() ==> list_arg_index(lb, #[trigger] ls[j].name, 0) >= 0
}

/// The scalar values, in ordinal order.
pub open spec fn scalar_values<'a, V>(sc: Seq<ScalarModel>, sb: Seq<ScalarArg<'a, V>>) -> Seq<
    &'a V,
> {
    Seq::new(sc.len(), |i: int| sb[scalar_arg_index(sb, sc[i].name, 0)].value)
}

/// The list values contributed by the first `j` list occurrences: the bound
/// values of each first occurrence, nothing for a duplicate.
pub open spec fn list_values_upto<'a, V>(ls: Seq<ListModel>, lb: Seq<ListArg<'a, V>>, j: int) -> Seq<
    &'a V,
>
    decreases j,
{
    if j <= 0 {
        seq![]
    } else if ls[j - 1].duplicate {
        list_values_upto(ls, lb, j - 1)
    } else {
        list_values_upto(ls, lb, j - 1) + list_values(lb, ls[j - 1].name)
    }
}

/// The text rendered for list occurrence `j`: fresh placeholders numbered on
/// from the arguments before it, or, for a duplicate, the text rendered for
/// the name's first occurrence.
pub open spec fn rendered<'a, V>(
    p: Seq<char>,
    nsc: nat,
    ls: Seq<ListModel>,
    lb: Seq<ListArg<'a, V>>,
    j: int,
) -> Seq<char>
    decreases j,
{
    if j < 0 || j >= ls.len() {
        seq![]
    } else if ls[j].duplicate {
        let f = list_index(ls, ls[j].name);
        if 0 <= f < j {
            rendered(p, nsc, ls, lb, f)
        } else {
            seq![]
        }
    } else {
        render_list(
            p,
            nsc + list_values_upto(ls, lb, j).len() + 1,
            list_values(lb, ls[j].name).len(),
        )
    }
}

pub open spec fn prev_offset(ls: Seq<ListModel>, j: int) -> int {
    if j <= 0 {
        0
    } else {
        ls[j - 1].end
    }
}

/// The output text up to and including list occurrence `j - 1`.
pub open spec fn text_upto<'a, V>(
    t: Seq<char>,
    p: Seq<char>,
    nsc: nat,
    ls: Seq<ListModel>,
    lb: Seq<ListArg<'a, V>>,
    j: int,
) -> Seq<char>
    decreases j,
{
    if j <= 0 {
        seq![]
    } else {
        text_upto(t, p, nsc, ls, lb, j - 1) + t.subrange(prev_offset(ls, j - 1), ls[j - 1].offset)
            + rendered(p, nsc, ls, lb, j - 1)
    }
}

/// The final SQL text of a statement.
pub open spec fn assembled_text<'a, V>(st: &Statement, p: Seq<char>, lb: Seq<ListArg<'a, V>>) -> Seq<
    char,
> {
    let ls = list_models(st.lists@);
    let t = st.template@;
    text_upto(t, p, st.scalars@.len(), ls, lb, ls.len() as int) + t.subrange(
        prev_offset(ls, ls.len() as int),
        t.len() as int,
    )
}

/// The final argument sequence of a statement: scalar values in ordinal
/// order, then the list values in first-occurrence order.
pub open spec fn assembled_args<'a, V>(
    st: &Statement,
    sb: Seq<ScalarArg<'a, V>>,
    lb: Seq<ListArg<'a, V>>,
) -> Seq<&'a V> {
    let ls = list_models(st.lists@);
    scalar_values(scalar_models(st.scalars@), sb) + list_values_upto(ls, lb, ls.len() as int)
}

/// The statement's list tokens lie in order inside the template, and
/// exactly the later occurrences of a name are duplicates.
pub open spec fn well_formed(st: &Statement) -> bool {
    analysis_wf(st.analysis())
}

fn find_scalar_arg<'a, V>(b: &Vec<ScalarArg<'a, V>>, n: &String) -> (r: Option<usize>)
    ensures
        r matches Some(j) ==> scalar_arg_index(b@, n@, 0) == j as int && j < b@.len(),
        r is None ==> scalar_arg_index(b@, n@, 0) == -1,
{
    let mut j: usize = 0;
    while j < b.len()
        invariant
            j <= b@.len(),
            scalar_arg_index(b@, n@, j as int) == scalar_arg_index(b@, n@, 0),
        decreases b@.len() - j,
    {
        if b[j].name == *n {
            return Some(j);
        }
        j = j + 1;
    }
    None
}

fn find_list_arg<'a, V>(b: &Vec<ListArg<'a, V>>, n: &String) -> (r: Option<usize>)
    ensures
        r matches Some(j) ==> list_arg_index(b@, n@, 0) == j as int && j < b@.len(),
        r is None ==> list_arg_index(b@, n@, 0) == -1,
{
    let mut j: usize = 0;
    while j < b.len()
        invariant
            j <= b@.len(),
            list_arg_index(b@, n@, j as int) == list_arg_index(b@, n@, 0),
        decreases b@.len() - j,
    {
        if b[j].name == *n {
            return Some(j);
        }
        j = j + 1;
    }
    None
}

/// Assembles the final SQL text and argument sequence of `st`: scalar
/// values come first in ordinal order, then the values of each list name in
/// first-occurrence order; every list occurrence is replaced by its
/// placeholders, written as `prefix` followed by the argument's number, and a
/// duplicate occurrence repeats the text of the first one. Fails with the name
/// of a parameter that has no binding.
pub fn assemble<'a, V>(
    st: &Statement,
    prefix: &str,
    scalars: &Vec<ScalarArg<'a, V>>,
    lists: &Vec<ListArg<'a, V>>,
) -> (r: Result<(String, Vec<&'a V>), BindingError>)
    requires
        well_formed(st),
        all_bound(scalar_models(st.scalars@), list_models(st.lists@), scalars@, lists@)
            ==> assembled_args(st, scalars@, lists@).len() < usize::MAX,
    ensures
        r is Ok <==> all_bound(scalar_models(st.scalars@), list_models(st.lists@), scalars@, lists@),
        r matches Ok((sql, args)) ==> sql@ == assembled_text(st, prefix@, lists@) && args@
            == assembled_args(st, scalars@, lists@),
        r matches Err(e) ==> (exists|i: int|
            0 <= i < st.scalars@.len() && st.scalars@[i].name@ == e.name@ && scalar_arg_index(
                scalars@,
                e.name@,
                0,
            ) == -1) || (exists|j: int|
            0 <= j < st.lists@.len() && st.lists@[j].name@ == e.name@ && list_arg_index(
                lists@,
                e.name@,
                0,
            ) == -1),
{
    let ghost sc = scalar_models(st.scalars@);
    let ghost ls = list_models(st.lists@);
    let ghost p = prefix@;
    let ghost nsc = st.scalars@.len();
    assert(st.analysis().lists == ls && st.analysis().template == st.template@);
    // the scalar values, in ordinal order
    let mut args: Vec<&'a V> = Vec::new();
    let mut i: usize = 0;
    while i < st.scalars.len()
        invariant
            i <= st.scalars@.len(),
            sc == scalar_models(st.scalars@),
            forall|k: int| 0 <= k < i ==> scalar_arg_index(scalars@, #[trigger] sc[k].name, 0) >= 0,
            args@ == scalar_values(sc, scalars@).subrange(0, i as int),
        decreases st.scalars@.len() - i,
    {
        assert(sc[i as int].name == st.scalars@[i as int].name@);
        let k = match find_scalar_arg(scalars, &st.scalars[i].name) {
            Some(k) => k,
            None => {
                return Err(BindingError { name: st.scalars[i].name.clone() });
            },
        };
        args.push(scalars[k].value);
        assert(args@ =~= scalar_values(sc, scalars@).subrange(0, i + 1));
        i = i + 1;
    }
    // every list name is bound before anything is written
    let mut j: usize = 0;
    while j < st.lists.len()
        invariant
            j <= st.lists@.len(),
            ls == list_models(st.lists@),
            forall|k: int| 0 <= k < j ==> list_arg_index(lists@, #[trigger] ls[k].name, 0) >= 0,
        decreases st.lists@.len() - j,
    {
        if find_list_arg(lists, &st.lists[j].name).is_none() {
            assert(ls[j as int].name == st.lists@[j as int].name@);
            return Err(BindingError { name: st.lists[j].name.clone() });
        }
        j = j + 1;
    }
    assert(all_bound(sc, ls, scalars@, lists@));
    assert(args@ =~= scalar_values(sc, scalars@));
    proof {
        assert forall|k: int| 0 <= k < st.lists@.len() implies list_arg_index(
            lists@,
            #[trigger] st.lists@[k].name@,
            0,
        ) >= 0 by {
            assert(ls[k].name == st.lists@[k].name@);
        }
    }
    let sql = splice(st, prefix, lists, &mut args);
    Ok((sql, args))
}

/// Copies the template of `st` with each list occurrence replaced by its
/// rendered placeholders, appending the list values to `args`, which holds
/// the scalar values.
fn splice<'a, V>(st: &Statement, prefix: &str, lists: &Vec<ListArg<'a, V>>, args: &mut Vec<&'a V>) -> (sql: String)
    requires
        well_formed(st),
        forall|k: int|
            0 <= k < st.lists@.len() ==> list_arg_index(lists@, #[trigger] st.lists@[k].name@, 0) >= 0,
        old(args)@.len() == st.scalars@.len(),
        st.scalars@.len() + list_values_upto(list_models(st.lists@), lists@, st.lists@.len() as int).len()
            < usize::MAX,
    ensures
        sql@ == assembled_text(st, prefix@, lists@),
        final(args)@ == old(args)@ + list_values_upto(list_models(st.lists@), lists@, st.lists@.len() as int),
{
    let ghost ls = list_models(st.lists@);
    let ghost p = prefix@;
    let ghost nsc = st.scalars@.len();
    let ghost a0 = args@;
    assert(args@ =~= a0 + list_values_upto(ls, lists@, 0));
    assert forall|k: int| 0 <= k < ls.len() implies list_arg_index(lists@, #[trigger] ls[k].name, 0) >= 0 by {
        assert(ls[k].name == st.lists@[k].name@);
    }
    proof {
        let a = st.analysis();
        assert forall|k: int| 0 <= k < ls.len() implies #[trigger] ls[k].offset <= ls[k].end <= st.template@.len() by {
            assert(a.lists[k] == ls[k]);
        }
        assert forall|k: int| 0 < k < ls.len() implies ls[k - 1].end <= #[trigger] ls[k].offset by {
            assert(a.lists[k] == ls[k]);
            assert(a.lists[k - 1] == ls[k - 1]);
        }
        assert forall|k: int| 0 <= k < ls.len() implies 0 <= list_index(ls, #[trigger] ls[k].name)
            <= k && (ls[k].duplicate <==> list_index(ls, ls[k].name) < k) by {
            assert(a.lists[k] == ls[k]);
        }
    }
    let t = chars_of(st.template.as_str());
    let mut sql = String::new();
    let mut texts: Vec<String> = Vec::new();
    let mut from: usize = 0;
    let mut j: usize = 0;
    while j < st.lists.len()
        invariant
            j <= st.lists@.len(),
            ls == list_models(st.lists@),
            t@ == st.template@,
            p == prefix@,
            nsc == st.scalars@.len(),
            a0.len() == nsc,
            analysis_wf(st.analysis()),
            forall|k: int| 0 <= k < ls.len() ==> #[trigger] ls[k].offset <= ls[k].end <= st.template@.len(),
            forall|k: int| 0 < k < ls.len() ==> ls[k - 1].end <= #[trigger] ls[k].offset,
            forall|k: int|
                0 <= k < ls.len() ==> 0 <= list_index(ls, #[trigger] ls[k].name) <= k && (
                ls[k].duplicate <==> list_index(ls, ls[k].name) < k),
            forall|k: int| 0 <= k < ls.len() ==> list_arg_index(lists@, #[trigger] ls[k].name, 0) >= 0,
            nsc + list_values_upto(ls, lists@, ls.len() as int).len() < usize::MAX,
            from == prev_offset(ls, j as int),
            sql@ == text_upto(t@, p, nsc, ls, lists@, j as int),
            args@ == a0 + list_values_upto(ls, lists@, j as int),
            texts@.len() == j,
            forall|k: int| 0 <= k < j ==> (#[trigger] texts@[k])@ == rendered(p, nsc, ls, lists@, k),
        decreases st.lists@.len() - j,
    {
        let occ = &st.lists[j];
        proof {
            lemma_list_values_upto_grows(ls, lists@, j + 1, ls.len() as int);
            assert(ls[j as int].offset <= ls[j as int].end <= st.template@.len());
            if j > 0 {
                assert(ls[j - 1].end <= ls[j as int].offset);
            }
        }
        push_range(&mut sql, &t, from, occ.offset);
        let text: String;
        if occ.duplicate {
            let f = match crate::classify::find_list(&st.lists, &occ.name) {
                Some(f) => f,
                None => {
                    assert(list_index(ls, ls[j as int].name) >= 0);
                    0
                },
            };
            proof {
                assert(ls[j as int].name == occ.name@);
                assert(0 <= f < j);
            }
            text = texts[f].clone();
        } else {
            let k = match find_list_arg(lists, &occ.name) {
                Some(k) => k,
                None => {
                    assert(list_arg_index(lists@, ls[j as int].name, 0) >= 0);
                    0
                },
            };
            let mut r = String::new();
            proof {
                assert(ls[j as int].name == occ.name@);
                assert(lists@[k as int].values@ == list_values(lists@, ls[j as int].name));
                assert(list_values_upto(ls, lists@, j + 1) == list_values_upto(ls, lists@, j as int)
                    + list_values(lists@, ls[j as int].name));
                assert(a0.len() == nsc);
                assert(args@.len() == nsc + list_values_upto(ls, lists@, j as int).len());
            }
            push_list(lists[k].values.as_slice(), prefix, &mut r, args);
            assert(r@ =~= rendered(p, nsc, ls, lists@, j as int));
            text = r;
        }
        sql.append(text.as_str());
        texts.push(text);
        from = occ.end;
        j = j + 1;
        assert(sql@ =~= text_upto(t@, p, nsc, ls, lists@, j as int));
        assert(args@ =~= a0 + list_values_upto(ls, lists@, j as int));
    }
    proof {
        if ls.len() > 0 {
            assert(ls[ls.len() - 1].end <= st.template@.len());
        }
    }
    push_range(&mut sql, &t, from, t.len());
    sql
}

proof fn lemma_list_values_upto_grows<'a, V>(ls: Seq<ListModel>, lb: Seq<ListArg<'a, V>>, j: int, m: int)
    requires
        0 <= j <= m <= ls.len(),
    ensures
        list_values_upto(ls, lb, j).len() <= list_values_upto(ls, lb, m).len(),
    decreases m - j,
{
    if j < m {
        lemma_list_values_upto_grows(ls, lb, j, m - 1);
    }
}

/// Every occurrence of a list name renders the same text: the first
/// occurrence is the one entry that is not a duplicate, and each occurrence
/// renders one placeholder per bound value, numbered as at that first one.
pub proof fn lemma_list_occurrences<'a, V>(st: &Statement, p: Seq<char>, lb: Seq<ListArg<'a, V>>, j: int)
    requires
        well_formed(st),
        0 <= j < st.lists@.len(),
    ensures
        ({
            let ls = list_models(st.lists@);
            let nsc = st.scalars@.len();
            let f = list_index(ls, ls[j].name);
            &&& 0 <= f <= j
            &&& ls[f].name == ls[j].name
            &&& !ls[f].duplicate
            &&& (ls[j].duplicate <==> j != f)
            &&& rendered(p, nsc, ls, lb, j) == rendered(p, nsc, ls, lb, f)
            &&& rendered(p, nsc, ls, lb, j) == render_list(
                p,
                nsc + list_values_upto(ls, lb, f).len() + 1,
                list_values(lb, ls[j].name).len(),
            )
        }),
{
    let ls = list_models(st.lists@);
    let a = st.analysis();
    assert(a.lists == ls);
    let f = list_index(ls, ls[j].name);
    assert(0 <= f <= j);
    lemma_list_index_from(ls, ls[j].name, 0);
    assert(ls[f].name == ls[j].name);
    assert(list_index(ls, ls[f].name) == f);
    assert(!ls[f].duplicate);
    let nsc = st.scalars@.len();
    assert(rendered(p, nsc, ls, lb, f) == render_list(
        p,
        nsc + list_values_upto(ls, lb, f).len() + 1,
        list_values(lb, ls[f].name).len(),
    ));
    if ls[j].duplicate {
        assert(f < j);
        assert(rendered(p, nsc, ls, lb, j) == rendered(p, nsc, ls, lb, f));
    } else {
        assert(f == j);
    }
}

/// Assembling is deterministic: the same statement, prefix and bindings
/// always give the same text and the same arguments.
pub proof fn lemma_assembly_deterministic<'a, V>(
    st: &Statement,
    p: Seq<char>,
    sb: Seq<ScalarArg<'a, V>>,
    lb: Seq<ListArg<'a, V>>,
    sql1: Seq<char>,
    args1: Seq<&'a V>,
    sql2: Seq<char>,
    args2: Seq<&'a V>,
)
    requires
        sql1 == assembled_text(st, p, lb) && args1 == assembled_args(st, sb, lb),
        sql2 == assembled_text(st, p, lb) && args2 == assembled_args(st, sb, lb),
    ensures
        sql1 == sql2,
        args1 == args2,
{
}

} // verus!
