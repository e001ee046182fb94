use sql_migration_kit::order::compare_versions;
use sql_migration_kit::{collect_migration_files, Filename, MigrationFile};
use std::cmp::Ordering;

fn paths(names: &[&str]) -> Vec<String> {
    names.iter().map(|n| format!("migrations/{}", n)).collect()
}

#[test]
fn orders_by_version_ascending() {
    let files = collect_migration_files(&paths(&[
        "0003_add_index.sql",
        "0001_create_accounts.sql",
        "0002_add_column.sql",
    ]));
    let versions: Vec<&str> = files.iter().map(|f| f.filename.version.as_str()).collect();
    assert_eq!(versions, vec!["0001", "0002", "0003"]);
}

#[test]
fn orders_short_and_long_versions_numerically() {
    let files = collect_migration_files(&paths(&[
        "9_late_small_number.sql",
        "20240102150405_add_index.sql",
        "10_next.sql",
    ]));
    let versions: Vec<&str> = files.iter().map(|f| f.filename.version.as_str()).collect();
    assert_eq!(versions, vec!["9", "10", "20240102150405"]);
}

#[test]
fn skips_non_migration_files() {
    let files = collect_migration_files(&paths(&["0001_create_accounts.sql", "README.md"]));
    assert_eq!(files.len(), 1);
    assert_eq!(files[0].filename.name, "create_accounts");
}

#[test]
fn empty_directory_yields_empty_set() {
    let files = collect_migration_files(&Vec::new());
    assert!(files.is_empty());
}

#[test]
fn compare_versions_is_numeric() {
    assert_eq!(compare_versions("9", "10"), Ordering::Less);
    assert_eq!(compare_versions("0002", "10"), Ordering::Less);
    assert_eq!(compare_versions("10", "0002"), Ordering::Greater);
    assert_eq!(compare_versions("0001", "1"), Ordering::Greater);
    assert_eq!(compare_versions("1", "01"), Ordering::Less);
    assert_eq!(compare_versions("0001", "0001"), Ordering::Equal);
    assert_eq!(compare_versions("20240102150405", "0003"), Ordering::Greater);
    assert_eq!(compare_versions("123", "124"), Ordering::Less);
    assert_eq!(compare_versions("", "0"), Ordering::Less);
}

#[test]
fn mixed_zero_padding_orders_numerically() {
    let files = collect_migration_files(&paths(&["10_b.sql", "0002_a.sql", "3_c.sql"]));
    let versions: Vec<&str> = files.iter().map(|f| f.filename.version.as_str()).collect();
    assert_eq!(versions, vec!["0002", "3", "10"]);
}

#[test]
fn equal_numbers_order_by_padding_then_name_then_path() {
    let files = collect_migration_files(&paths(&[
        "01_b.sql",
        "1_a.sql",
        "0001_a.sql",
        "1_a.up.sql",
    ]));
    let got: Vec<(&str, &str, &str)> = files
        .iter()
        .map(|f| (f.filename.version.as_str(), f.filename.name.as_str(), f.path.as_str()))
        .collect();
    assert_eq!(
        got,
        vec![
            ("1", "a", "migrations/1_a.sql"),
            ("1", "a.up", "migrations/1_a.up.sql"),
            ("01", "b", "migrations/01_b.sql"),
            ("0001", "a", "migrations/0001_a.sql"),
        ]
    );
}

#[test]
fn sort_keeps_every_file() {
    let f = |p: &str, v: &str, n: &str| MigrationFile {
        path: p.to_string(),
        filename: Filename { version: v.to_string(), name: n.to_string() },
    };
    let input = vec![f("c", "3", "x"), f("a", "1", "x"), f("b", "2", "x"), f("a", "1", "x")];
    let sorted = sql_migration_kit::scan::sort_migration_files(input);
    let got: Vec<&str> = sorted.iter().map(|m| m.path.as_str()).collect();
    assert_eq!(got, vec!["a", "a", "b", "c"]);
}

#[test]
fn each_parsed_path_appears_once() {
    let files = collect_migration_files(&paths(&["0002_b.sql", "0001_a.sql", "notes.txt"]));
    assert_eq!(files.len(), 2);
    assert_eq!(files[0].path, "migrations/0001_a.sql");
    assert_eq!(files[1].path, "migrations/0002_b.sql");
}

#[test]
fn same_version_orders_by_name_then_path() {
    let files = collect_migration_files(&vec![
        "b/0002_x.sql".to_string(),
        "a/0002_x.sql".to_string(),
        "a/0002_w.sql".to_string(),
    ]);
    let got: Vec<&str> = files.iter().map(|f| f.path.as_str()).collect();
    assert_eq!(got, vec!["a/0002_w.sql", "a/0002_x.sql", "b/0002_x.sql"]);
}

#[test]
fn colon_in_a_directory_name_is_ordinary() {
    let files = collect_migration_files(&vec!["dir:x/0002_b.sql".to_string(), "dir:x/0001_a.sql".to_string()]);
    let got: Vec<(&str, &str)> = files
        .iter()
        .map(|f| (f.filename.version.as_str(), f.filename.name.as_str()))
        .collect();
    assert_eq!(got, vec![("0001", "a"), ("0002", "b")]);
}

#[test]
fn compare_versions_reverses_and_is_equal_only_for_the_same_string() {
    let vs = ["", "0", "00", "1", "01", "001", "9", "10", "0010", "20240102150405"];
    for a in vs {
        for b in vs {
            assert_eq!(compare_versions(a, b), compare_versions(b, a).reverse());
            assert_eq!(compare_versions(a, b) == Ordering::Equal, a == b);
        }
    }
    assert_eq!(compare_versions("0", "00"), Ordering::Less);
    assert_eq!(compare_versions("0010", "9"), Ordering::Greater);
}
