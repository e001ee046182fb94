use sql_migration_kit::Filename;

#[test]
fn parses_underscore_separated_name() {
    let f = Filename::parse("0001_create_accounts.sql").unwrap();
    assert_eq!(f.version, "0001");
    assert_eq!(f.name, "create_accounts");
}

#[test]
fn parses_dash_separated_name() {
    let f = Filename::parse("0001-create-accounts.sql").unwrap();
    assert_eq!(f.version, "0001");
    assert_eq!(f.name, "create-accounts");
}

#[test]
fn parses_timestamp_version() {
    let f = Filename::parse("20240102150405_add_index.sql").unwrap();
    assert_eq!(f.version, "20240102150405");
    assert_eq!(f.name, "add_index");
}

#[test]
fn keeps_leading_zeros() {
    let f = Filename::parse("0007_seed.sql").unwrap();
    assert_eq!(f.version, "0007");
}

#[test]
fn version_only_has_empty_name() {
    let f = Filename::parse("0001.sql").unwrap();
    assert_eq!(f.version, "0001");
    assert_eq!(f.name, "");
}

#[test]
fn no_leading_digits_is_none() {
    assert_eq!(Filename::parse("create_accounts.sql"), None);
}

#[test]
fn ignores_directory_components() {
    let f = Filename::parse("migrations/0001_create_accounts.sql").unwrap();
    assert_eq!(f.version, "0001");
    assert_eq!(f.name, "create_accounts");
}

#[test]
fn ignores_extension() {
    let f = Filename::parse("0001_create_accounts.up.sql").unwrap();
    assert_eq!(f.version, "0001");
    assert_eq!(f.name, "create_accounts.up");
}

#[test]
fn parse_stem_strips_a_run_of_separators() {
    let f = Filename::parse_stem("0001_-_x").unwrap();
    assert_eq!(f.version, "0001");
    assert_eq!(f.name, "x");
}

#[test]
fn parse_stem_keeps_separators_inside_the_name() {
    let f = Filename::parse_stem("12-a_b-c").unwrap();
    assert_eq!(f.version, "12");
    assert_eq!(f.name, "a_b-c");
}

#[test]
fn parse_stem_without_digits_is_none() {
    assert_eq!(Filename::parse_stem("_0001"), None);
    assert_eq!(Filename::parse_stem(""), None);
}

#[test]
fn parse_stem_digits_only_after_the_version_stay_in_name() {
    let f = Filename::parse_stem("001_2024").unwrap();
    assert_eq!(f.version, "001");
    assert_eq!(f.name, "2024");
}

#[test]
fn parse_of_dotted_directory_uses_file_stem() {
    let f = Filename::parse("db.d/0002_add.tar.gz").unwrap();
    assert_eq!(f.version, "0002");
    assert_eq!(f.name, "add.tar");
}

#[test]
fn parse_of_directory_only_path_has_no_digits() {
    assert_eq!(Filename::parse("migrations/"), None);
    assert_eq!(Filename::parse(""), None);
}

#[test]
fn only_the_final_component_is_parsed() {
    assert_eq!(Filename::parse("migrations/0001/create.sql"), None);
    let f = Filename::parse("0001_a/0002_b.sql").unwrap();
    assert_eq!(f.version, "0002");
    assert_eq!(f.name, "b");
}

#[test]
fn trailing_slash_and_dot_components_are_passed_over() {
    let f = Filename::parse("a/0001_x.sql/").unwrap();
    assert_eq!((f.version.as_str(), f.name.as_str()), ("0001", "x"));
    let g = Filename::parse("a/0003_y.sql/.").unwrap();
    assert_eq!((g.version.as_str(), g.name.as_str()), ("0003", "y"));
}

#[test]
fn parent_component_has_no_file_stem() {
    assert_eq!(Filename::parse("0001_a/.."), None);
}

#[test]
fn leading_dot_name_is_its_own_stem() {
    assert_eq!(Filename::parse("dir/.0001"), None);
    let f = Filename::parse("dir/0001.").unwrap();
    assert_eq!((f.version.as_str(), f.name.as_str()), ("0001", ""));
}

#[test]
fn colon_after_the_start_is_an_ordinary_character() {
    let f = Filename::parse("dir:x/0001_a.sql").unwrap();
    assert_eq!((f.version.as_str(), f.name.as_str()), ("0001", "a"));
    let g = Filename::parse("0003_a:b.sql").unwrap();
    assert_eq!((g.version.as_str(), g.name.as_str()), ("0003", "a:b"));
}
