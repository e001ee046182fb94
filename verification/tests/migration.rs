use sql_migration_kit::{Migration, DOWN_MARKER};

#[test]
fn splits_on_marker() {
    let m = Migration::parse("create table t (id int);\n-- migrate:down\ndrop table t;");
    assert_eq!(m.up, "create table t (id int);");
    assert_eq!(m.down.as_deref(), Some("drop table t;"));
}

#[test]
fn no_marker_means_up_only() {
    let m = Migration::parse("create table t (id int);");
    assert_eq!(m.up, "create table t (id int);");
    assert_eq!(m.down, None);
}

#[test]
fn marker_needs_its_own_line() {
    let m = Migration::parse("select 1; -- migrate:down comment");
    assert_eq!(m.down, None);
}

#[test]
fn up_and_down_statements_are_split() {
    let m = Migration::parse(
        "create table t (id int);\ninsert into t values (1);\n-- migrate:down\ndrop table t;",
    );
    assert_eq!(
        m.up_statements(),
        vec!["create table t (id int)", "insert into t values (1)"]
    );
    assert_eq!(m.down_statements(), vec!["drop table t"]);
}

#[test]
fn down_statements_empty_when_no_down_section() {
    let m = Migration::parse("select 1;");
    assert!(m.down_statements().is_empty());
}

#[test]
fn checksum_is_stable_across_reparses() {
    let text = "create table t (id int);\n-- migrate:down\ndrop table t;";
    assert_eq!(Migration::parse(text).checksum(), Migration::parse(text).checksum());
}

#[test]
fn checksum_changes_when_content_changes() {
    let a = Migration::parse("create table t (id int);");
    let b = Migration::parse("create table t (id integer);");
    assert_ne!(a.checksum(), b.checksum());
}

#[test]
fn marker_constant_is_the_sql_comment() {
    assert_eq!(DOWN_MARKER, "-- migrate:down");
}

#[test]
fn marker_line_may_carry_surrounding_whitespace() {
    let m = Migration::parse("a;\n   -- migrate:down \t\nb;");
    assert_eq!(m.up, "a;");
    assert_eq!(m.down.as_deref(), Some("b;"));
}

#[test]
fn second_marker_is_ordinary_down_text() {
    let m = Migration::parse("a;\n-- migrate:down\nb;\n-- migrate:down\nc;");
    assert_eq!(m.up, "a;");
    assert_eq!(m.down.as_deref(), Some("b;\n-- migrate:down\nc;"));
}

#[test]
fn crlf_line_endings_are_understood() {
    let m = Migration::parse("a;\r\nb;\r\n-- migrate:down\r\nc;\r\nd;\r\n");
    assert_eq!(m.up, "a;\nb;");
    assert_eq!(m.down.as_deref(), Some("c;\nd;"));
}

#[test]
fn empty_down_section_is_some_empty() {
    let m = Migration::parse("a;\n-- migrate:down\n");
    assert_eq!(m.up, "a;");
    assert_eq!(m.down.as_deref(), Some(""));
}

#[test]
fn marker_on_first_line_gives_empty_up() {
    let m = Migration::parse("-- migrate:down\ndrop table t;");
    assert_eq!(m.up, "");
    assert_eq!(m.down.as_deref(), Some("drop table t;"));
}

#[test]
fn sections_are_trimmed_of_unicode_whitespace() {
    let m = Migration::parse("\u{3000}\n  select 1;\u{a0}\n-- migrate:down\n\u{2003}select 2;\n\n");
    assert_eq!(m.up, "select 1;");
    assert_eq!(m.down.as_deref(), Some("select 2;"));
}

#[test]
fn without_marker_up_is_whole_input_trimmed() {
    let m = Migration::parse("\n  a;\r\nb;  \n");
    assert_eq!(m.up, "a;\r\nb;");
    assert_eq!(m.down, None);
}

#[test]
fn migration_checksum_matches_section_checksum() {
    let m = Migration::parse("a;\n-- migrate:down\nb;");
    assert_eq!(m.checksum(), sql_migration_kit::checksum("a;", Some("b;")));
    let n = Migration::parse("a;");
    assert_eq!(n.checksum(), sql_migration_kit::checksum("a;", None));
}

#[test]
fn one_directional_and_empty_down_checksums_differ() {
    let a = Migration::parse("a;");
    let b = Migration::parse("a;\n-- migrate:down\n");
    assert_ne!(a.checksum(), b.checksum());
}

#[test]
fn written_migration_parses_back() {
    let up = "  create table t (id int);\n\ninsert into t values (1);\n";
    let down = "drop table t;\n";
    let text = format!("{}\n{}\n{}", up, DOWN_MARKER, down);
    let m = Migration::parse(&text);
    assert_eq!(m.up, up.trim());
    assert_eq!(m.down.as_deref(), Some(down.trim()));
}

#[test]
fn up_section_parses_back_unchanged() {
    let m = Migration::parse("  create table t (id int);\n  -- migrate:down \ndrop table t;\n");
    let again = Migration::parse(&m.up);
    assert_eq!(again.up, m.up);
    assert_eq!(again.down, None);
}
