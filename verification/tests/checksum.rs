use sql_migration_kit::checksum;

#[test]
fn same_input_same_checksum() {
    assert_eq!(checksum("a", Some("b")), checksum("a", Some("b")));
}

#[test]
fn different_up_different_checksum() {
    assert_ne!(checksum("a", Some("b")), checksum("aa", Some("b")));
}

#[test]
fn none_vs_empty_string_down_differ() {
    assert_ne!(checksum("a", None), checksum("a", Some("")));
}

#[test]
fn separator_prevents_boundary_collision() {
    assert_ne!(checksum("a", Some("b")), checksum("ab", None));
}

#[test]
fn output_is_sixteen_hex_chars() {
    let c = checksum("select 1;", Some("select 2;"));
    assert_eq!(c.len(), 16);
    assert!(c.chars().all(|ch| ch.is_ascii_hexdigit()));
}

#[test]
fn checksum_is_fnv1a_of_up_alone_without_down() {
    assert_eq!(checksum("a", None), "af63dc4c8601ec8c");
    assert_eq!(checksum("ab", None), "089c4407b545986a");
}

#[test]
fn checksum_hashes_nul_separator_before_down() {
    assert_eq!(checksum("a", Some("")), "089be207b544f1e4");
    assert_eq!(checksum("a", Some("b")), "e5d29919042666b2");
}

#[test]
fn checksum_of_empty_sections_is_offset_basis() {
    assert_eq!(checksum("", None), "cbf29ce484222325");
}

#[test]
fn checksum_hashes_utf8_bytes() {
    // "é" is the two bytes 0xc3 0xa9.
    let mut h: u64 = 0xcbf29ce484222325;
    for b in [0xc3u8, 0xa9u8] {
        h ^= b as u64;
        h = h.wrapping_mul(0x100000001b3);
    }
    assert_eq!(checksum("é", None), format!("{:016x}", h));
}

#[test]
fn checksum_is_lowercase() {
    let c = checksum("create table t (id int);", None);
    assert!(c.chars().all(|ch| ch.is_ascii_digit() || ('a'..='f').contains(&ch)));
}

#[test]
fn fnv1a_of_no_bytes_is_the_offset_basis() {
    assert_eq!(checksum::fnv1a_64(&[]), 0xcbf29ce484222325);
}

#[test]
fn fnv1a_folds_each_byte_in_turn() {
    assert_eq!(checksum::fnv1a_64(b"a"), 0xaf63dc4c8601ec8c);
    let h = checksum::fnv1a_64(b"a");
    let step = (h ^ (b'b' as u64)).wrapping_mul(0x100000001b3);
    assert_eq!(checksum::fnv1a_64(b"ab"), step);
}
