use sql_migration_kit::split_statements;

#[test]
fn splits_on_semicolons() {
    let got = split_statements("select 1; select 2;");
    assert_eq!(got, vec!["select 1", "select 2"]);
}

#[test]
fn keeps_trailing_statement_without_semicolon() {
    let got = split_statements("select 1;\nselect 2");
    assert_eq!(got, vec!["select 1", "select 2"]);
}

#[test]
fn ignores_semicolon_inside_single_quoted_string() {
    let got = split_statements("insert into t (v) values ('a;b');");
    assert_eq!(got, vec!["insert into t (v) values ('a;b')"]);
}

#[test]
fn understands_escaped_single_quote() {
    let got = split_statements("insert into t (v) values ('it''s; fine');");
    assert_eq!(got, vec!["insert into t (v) values ('it''s; fine')"]);
}

#[test]
fn ignores_semicolon_inside_quoted_identifier() {
    let got = split_statements("select \"weird;column\" from t;");
    assert_eq!(got, vec!["select \"weird;column\" from t"]);
}

#[test]
fn ignores_semicolon_inside_line_comment() {
    let got = split_statements("select 1; -- trailing; comment\nselect 2;");
    assert_eq!(got, vec!["select 1", "-- trailing; comment\nselect 2"]);
}

#[test]
fn ignores_semicolon_inside_block_comment() {
    let got = split_statements("select 1; /* a; b */ select 2;");
    assert_eq!(got, vec!["select 1", "/* a; b */ select 2"]);
}

#[test]
fn drops_empty_statements() {
    let got = split_statements(";;select 1;;;");
    assert_eq!(got, vec!["select 1"]);
}

#[test]
fn empty_input_yields_no_statements() {
    let got = split_statements("   \n  ");
    assert!(got.is_empty());
}

#[test]
fn understands_escaped_double_quote() {
    let got = split_statements("select \"a\"\";b\" from t; select 2");
    assert_eq!(got, vec!["select \"a\"\";b\" from t", "select 2"]);
}

#[test]
fn unterminated_string_swallows_the_rest() {
    let got = split_statements("select 'a; select 2;");
    assert_eq!(got, vec!["select 'a; select 2;"]);
}

#[test]
fn unterminated_block_comment_swallows_the_rest() {
    let got = split_statements("select 1 /* open; select 2;");
    assert_eq!(got, vec!["select 1 /* open; select 2;"]);
}

#[test]
fn line_comment_at_end_without_newline_swallows_semicolon() {
    let got = split_statements("select 1 -- note; select 2");
    assert_eq!(got, vec!["select 1 -- note; select 2"]);
}

#[test]
fn single_dash_and_slash_are_ordinary() {
    let got = split_statements("select 2-1; select 4/2;");
    assert_eq!(got, vec!["select 2-1", "select 4/2"]);
}

#[test]
fn block_comment_closes_on_star_slash() {
    let got = split_statements("/* a **/ x; y");
    assert_eq!(got, vec!["/* a **/ x", "y"]);
}

#[test]
fn statements_are_trimmed_and_non_empty() {
    let got = split_statements(" \t a ;\n\n b\u{3000};  ;\u{2028}");
    assert_eq!(got, vec!["a", "b"]);
    assert!(got.iter().all(|s| !s.is_empty() && s.trim() == s.as_str()));
}

#[test]
fn joining_closed_blocks_joins_statements() {
    let a = "select 'x;' ; /* c */ select 1";
    let b = "select \"y\"; select 2";
    let joined = format!("{};{}", a, b);
    let mut expected = split_statements(a);
    expected.extend(split_statements(b));
    assert_eq!(split_statements(&joined), expected);
}

#[test]
fn text_without_semicolon_is_one_statement() {
    assert_eq!(split_statements("  select 1  "), vec!["select 1"]);
    assert!(split_statements("").is_empty());
}

#[test]
fn each_statement_splits_to_itself() {
    let sql = "select 'a;b' ; -- x;\n insert into \"t;\" values (1); /* ; */ select 2";
    let parts = split_statements(sql);
    assert_eq!(parts.len(), 3);
    for s in &parts {
        assert_eq!(split_statements(s), vec![s.clone()]);
    }
}
