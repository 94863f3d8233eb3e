use include_sql::assemble::{assemble, BindingError, ListArg, ScalarArg};
use include_sql::classify::Statement;
use include_sql::extract::{parse, ParseError};
use include_sql::lexer::{lex, LexError, SpanKind};

#[derive(Debug, PartialEq)]
enum Val {
    Int(i64),
    Text(&'static str),
}

fn one(text: &str, prefix: &str) -> Statement {
    let mut sts = parse(text, prefix).expect("the file parses");
    assert_eq!(sts.len(), 1);
    sts.remove(0)
}

fn scalar<'a>(name: &str, value: &'a Val) -> ScalarArg<'a, Val> {
    ScalarArg { name: name.to_string(), value }
}

fn list<'a>(name: &str, values: Vec<&'a Val>) -> ListArg<'a, Val> {
    ListArg { name: name.to_string(), values }
}

#[test]
fn ship_crew_by_rank() {
    let st = one(
        "-- name: select_ship_crew_by_rank\nSELECT id FROM sailors WHERE ship_id = :ship AND rank IN (:ranks)",
        "$",
    );
    assert_eq!(st.name, "select_ship_crew_by_rank");
    assert_eq!(st.template, "SELECT id FROM sailors WHERE ship_id = $1 AND rank IN (:ranks)");
    assert_eq!(st.scalars.len(), 1);
    assert_eq!(st.scalars[0].name, "ship");
    assert_eq!(st.lists.len(), 1);
    assert_eq!(st.lists[0].name, "ranks");
    assert!(!st.lists[0].duplicate);

    let ship = Val::Int(7);
    let captain = Val::Text("captain");
    let midshipman = Val::Text("midshipman");
    let (sql, args) = assemble(
        &st,
        "$",
        &vec![scalar("ship", &ship)],
        &vec![list("ranks", vec![&captain, &midshipman])],
    )
    .expect("every parameter is bound");
    assert_eq!(sql, "SELECT id FROM sailors WHERE ship_id = $1 AND rank IN ($2,$3)");
    assert_eq!(args, vec![&Val::Int(7), &Val::Text("captain"), &Val::Text("midshipman")]);
}

#[test]
fn duplicate_list_renders_once() {
    let st = one("-- name: q\nSELECT * FROM t WHERE a IN (:x) OR b IN (:x)", "$");
    assert_eq!(st.lists.len(), 2);
    assert!(!st.lists[0].duplicate);
    assert!(st.lists[1].duplicate);
    let one_v = Val::Int(1);
    let two_v = Val::Int(2);
    let (sql, args) =
        assemble(&st, "$", &vec![], &vec![list("x", vec![&one_v, &two_v])]).unwrap();
    assert_eq!(sql, "SELECT * FROM t WHERE a IN ($1,$2) OR b IN ($1,$2)");
    assert_eq!(args, vec![&Val::Int(1), &Val::Int(2)]);
}

#[test]
fn list_used_three_times() {
    let st = one("-- name: q\nSELECT 1 WHERE a IN (:x) AND b IN (:x) AND c in ( :x )", "?");
    assert_eq!(st.lists.len(), 3);
    assert_eq!(st.lists.iter().filter(|l| l.duplicate).count(), 2);
    let vals = [Val::Int(4), Val::Int(5), Val::Int(6)];
    let (sql, args) =
        assemble(&st, "?", &vec![], &vec![list("x", vals.iter().collect())]).unwrap();
    assert_eq!(sql, "SELECT 1 WHERE a IN (?1,?2,?3) AND b IN (?1,?2,?3) AND c in ( ?1,?2,?3 )");
    assert_eq!(args.len(), 3);
}

#[test]
fn role_conflict_cites_both_offsets() {
    let text = "-- name: q\nSELECT * FROM t WHERE a IN (:foo) AND b = :foo";
    match parse(text, "$") {
        Err(ParseError::Conflict(c)) => {
            assert_eq!(c.name, "foo");
            assert_eq!(c.first, 39);
            assert_eq!(c.second, 53);
        }
        other => panic!("unexpected {:?}", other),
    }
}

#[test]
fn unterminated_string_is_a_lex_error() {
    let text = "-- name: q\nSELECT 'abc FROM t";
    match parse(text, "$") {
        Err(ParseError::Lex(LexError { offset })) => assert_eq!(offset, 18),
        other => panic!("unexpected {:?}", other),
    }
    assert_eq!(lex("x = 'it''s").unwrap_err(), LexError { offset: 4 });
}

#[test]
fn unterminated_block_comment_is_a_lex_error() {
    assert_eq!(lex("SELECT 1 /* open").unwrap_err(), LexError { offset: 9 });
}

#[test]
fn spans_reproduce_the_text() {
    let text = "SELECT a::int, 'it''s :no' -- :no\n/* :no */ FROM t WHERE b = :yes";
    let spans = lex(text).unwrap();
    let chars: Vec<char> = text.chars().collect();
    let mut rebuilt = String::new();
    let mut at = 0;
    for sp in &spans {
        assert_eq!(sp.start, at);
        rebuilt.extend(&chars[sp.start..sp.end]);
        at = sp.end;
    }
    assert_eq!(rebuilt, text);
    let params: Vec<String> = spans
        .iter()
        .filter(|sp| sp.kind == SpanKind::Param)
        .map(|sp| chars[sp.start..sp.end].iter().collect())
        .collect();
    assert_eq!(params, vec![":yes".to_string()]);
}

#[test]
fn scalar_name_shares_one_ordinal() {
    let st = one("-- name: q\nSELECT * FROM t WHERE a = :x OR b = :y OR c = :x", "$");
    assert_eq!(st.scalars.len(), 2);
    assert_eq!(st.template, "SELECT * FROM t WHERE a = $1 OR b = $2 OR c = $1");
    let x = Val::Int(1);
    let y = Val::Int(2);
    let (sql, args) =
        assemble(&st, "$", &vec![scalar("y", &y), scalar("x", &x)], &vec![]).unwrap();
    assert_eq!(sql, st.template);
    assert_eq!(args, vec![&Val::Int(1), &Val::Int(2)]);
}

#[test]
fn assembling_twice_gives_the_same_output() {
    let st = one("-- name: q\nSELECT * FROM t WHERE k = :k AND a IN (:x)", ":");
    let k = Val::Int(3);
    let a = Val::Text("a");
    let b = Val::Text("b");
    let s = vec![scalar("k", &k)];
    let l = vec![list("x", vec![&a, &b])];
    let first = assemble(&st, ":", &s, &l).unwrap();
    let second = assemble(&st, ":", &s, &l).unwrap();
    assert_eq!(first.0, second.0);
    assert_eq!(first.1, second.1);
    assert_eq!(first.0, "SELECT * FROM t WHERE k = :1 AND a IN (:2,:3)");
}

#[test]
fn empty_list_gives_empty_parentheses() {
    let st = one("-- name: q\nSELECT * FROM t WHERE a IN (:x)", "$");
    let (sql, args) = assemble(&st, "$", &vec![], &vec![list("x", vec![])]).unwrap();
    assert_eq!(sql, "SELECT * FROM t WHERE a IN ()");
    assert!(args.is_empty());
}

#[test]
fn missing_binding_is_reported() {
    let st = one("-- name: q\nSELECT * FROM t WHERE k = :k AND a IN (:x)", "$");
    let k = Val::Int(3);
    let err = assemble(&st, "$", &vec![scalar("k", &k)], &vec![]).unwrap_err();
    assert_eq!(err.name, "x");
    let err: BindingError = assemble(&st, "$", &vec![], &vec![list("x", vec![])]).unwrap_err();
    assert_eq!(err.name, "k");
}

#[test]
fn several_statements_are_split_at_annotations() {
    let text = "-- leading text\n-- name: first\n-- Description line\nSELECT :a;\n\n-- name: second\nDELETE FROM t WHERE id = :id\n";
    let sts = parse(text, "$").unwrap();
    assert_eq!(sts.len(), 2);
    assert_eq!(sts[0].name, "first");
    assert_eq!(sts[0].template, "-- Description line\nSELECT $1;\n\n");
    assert_eq!(sts[1].name, "second");
    assert_eq!(sts[1].template, "DELETE FROM t WHERE id = $1\n");
}

#[test]
fn duplicate_statement_names_are_rejected() {
    let text = "-- name: q\nSELECT 1;\n-- name: q\nSELECT 2;";
    match parse(text, "$") {
        Err(ParseError::Duplicate { name, first, second }) => {
            assert_eq!(name, "q");
            assert_eq!(first, 0);
            assert_eq!(second, 21);
        }
        other => panic!("unexpected {:?}", other),
    }
}

#[test]
fn malformed_annotation_is_rejected() {
    match parse("-- name: two words\nSELECT 1;", "$") {
        Err(ParseError::Malformed { offset }) => assert_eq!(offset, 0),
        other => panic!("unexpected {:?}", other),
    }
    match parse("SELECT 1;\n--name:\nSELECT 2;", "$") {
        Err(ParseError::Malformed { offset }) => assert_eq!(offset, 10),
        other => panic!("unexpected {:?}", other),
    }
}

#[test]
fn file_without_statements_is_rejected() {
    assert!(matches!(parse("SELECT 1; -- no names here", "$"), Err(ParseError::NoStatements)));
}

#[test]
fn parameters_in_strings_comments_and_casts_are_ignored() {
    let st = one(
        "-- name: q\nSELECT ':a', \"x:b\", c::text /* :d */ FROM t -- :e\nWHERE f = :f",
        "$",
    );
    assert_eq!(st.scalars.len(), 1);
    assert_eq!(st.scalars[0].name, "f");
    assert_eq!(
        st.template,
        "SELECT ':a', \"x:b\", c::text /* :d */ FROM t -- :e\nWHERE f = $1"
    );
}

#[test]
fn list_numbers_follow_the_scalars() {
    let st = one("-- name: q\nSELECT * FROM t WHERE a IN (:xs) AND b = :b AND c = :c", "$");
    assert_eq!(st.template, "SELECT * FROM t WHERE a IN (:xs) AND b = $1 AND c = $2");
    let b = Val::Int(1);
    let c = Val::Int(2);
    let x = Val::Int(9);
    let (sql, args) = assemble(
        &st,
        "$",
        &vec![scalar("c", &c), scalar("b", &b)],
        &vec![list("xs", vec![&x, &x, &x, &x, &x, &x, &x, &x, &x, &x])],
    )
    .unwrap();
    assert_eq!(sql, "SELECT * FROM t WHERE a IN ($3,$4,$5,$6,$7,$8,$9,$10,$11,$12) AND b = $1 AND c = $2");
    assert_eq!(args.len(), 12);
    assert_eq!(args[0], &Val::Int(1));
    assert_eq!(args[1], &Val::Int(2));
}
