use pg_trellis::create::{
    is_description_allowed, migration_file_names, new_migration_file_names, normalize_description,
    migration_file_names_at, render_timestamp, NamingError,
};
use pg_trellis::migration::{classify_up_name, rollback_file_name, UpName};
use pg_trellis::text::{format_zero_padded, is_whitespace, string_from_chars, to_chars};

#[test]
fn zero_padding_matches_std_formatting() {
    for v in [0i64, 1, 42, 20240101120000, 99999999999999, 123456789012345678, -1, -42, i64::MIN, i64::MAX] {
        assert_eq!(format_zero_padded(v, 14), format!("{:014}", v));
        assert_eq!(format_zero_padded(v, 0), format!("{:00}", v));
        assert_eq!(format_zero_padded(v, 3), format!("{:03}", v));
    }
}

#[test]
fn chars_round_trip() {
    let text = "héllo wörld";
    let cs = to_chars(text);
    assert_eq!(cs.len(), 11);
    assert_eq!(string_from_chars(&cs), text);
}

#[test]
fn whitespace_follows_unicode() {
    assert_eq!(normalize_description("a\u{A0}b\u{3000}c\rd\u{2028}e"), "a_b_c_d_e");
    assert_eq!(normalize_description("日本語"), "日本語");
}

#[test]
fn description_whitespace_becomes_underscores() {
    assert_eq!(normalize_description("add user table"), "add_user_table");
    assert_eq!(normalize_description("tabs\tand\nnewlines"), "tabs_and_newlines");
    assert_eq!(normalize_description("  "), "__");
    assert_eq!(normalize_description(""), "");
    assert_eq!(normalize_description("keep-this_one"), "keep-this_one");
}

#[test]
fn forbidden_description_characters() {
    assert!(is_description_allowed("create users"));
    assert!(!is_description_allowed("a/b"));
    assert!(!is_description_allowed("a\\b"));
    assert!(!is_description_allowed("a\0b"));
}

#[test]
fn file_names_of_a_new_migration() {
    let names = migration_file_names("20240102030405", "add user table").unwrap();
    assert_eq!(names.up, "20240102030405_add_user_table.up.sql");
    assert_eq!(names.down, "20240102030405_add_user_table.down.sql");
    let empty = migration_file_names("20240102030405", "").unwrap();
    assert_eq!(empty.up, "20240102030405_.up.sql");
}

#[test]
fn description_with_separator_is_refused() {
    assert!(matches!(
        migration_file_names("20240102030405", "../escape"),
        Err(NamingError::ForbiddenCharacter)
    ));
    assert!(matches!(
        new_migration_file_names("a\\b"),
        Err(NamingError::ForbiddenCharacter)
    ));
}

#[test]
fn new_migration_is_named_after_the_clock() {
    let names = new_migration_file_names("init schema").unwrap();
    let (stamp, rest) = names.up.split_once('_').unwrap();
    assert_eq!(stamp.len(), 14);
    assert!(stamp.bytes().all(|b| b.is_ascii_digit()));
    assert_eq!(rest, "init_schema.up.sql");
    assert_eq!(names.down, format!("{stamp}_init_schema.down.sql"));
}

#[test]
fn created_migration_is_recognised_and_rolls_back() {
    let names = migration_file_names("20240102030405", "add users").unwrap();
    match classify_up_name(&names.up) {
        UpName::Migration { version, description } => {
            assert_eq!(version, 20240102030405);
            assert_eq!(description, "add_users");
            assert_eq!(rollback_file_name(version, &description), names.down);
        }
        _ => panic!("not recognised"),
    }
}

#[test]
fn timestamp_renders_utc_calendar_digits() {
    assert_eq!(render_timestamp(0, 0).unwrap(), "19700101000000");
    assert_eq!(render_timestamp(1704164645, 999_999_999).unwrap(), "20240102030405");
    assert_eq!(render_timestamp(-1, 0).unwrap(), "19691231235959");
    assert!(render_timestamp(i64::MAX, 0).is_none());
}

#[test]
fn whitespace_is_the_unicode_white_space_set() {
    let mut count = 0;
    for u in 0u32..=0x10FFFF {
        if let Some(c) = char::from_u32(u) {
            assert_eq!(is_whitespace(c), c.is_whitespace(), "U+{:04X}", u);
            if is_whitespace(c) {
                count += 1;
            }
        }
    }
    assert_eq!(count, 25);
}

#[test]
fn normalising_removes_every_kind_of_whitespace() {
    assert_eq!(normalize_description("a\tb\u{3000}c\u{a0}d\ne"), "a_b_c_d_e");
    assert_eq!(normalize_description(&normalize_description(" x  y ")), "_x__y_");
}

#[test]
fn names_at_an_instant() {
    let names = migration_file_names_at(1704164645, 0, "add users").unwrap();
    assert_eq!(names.up, "20240102030405_add_users.up.sql");
    assert_eq!(names.down, "20240102030405_add_users.down.sql");
    assert!(matches!(
        migration_file_names_at(0, 0, "a/b"),
        Err(NamingError::ForbiddenCharacter)
    ));
    assert!(matches!(
        migration_file_names_at(u64::MAX, 0, "ok"),
        Err(NamingError::ClockOutOfRange)
    ));
    assert!(matches!(
        migration_file_names_at(i64::MAX as u64, 0, "ok"),
        Err(NamingError::ClockOutOfRange)
    ));
    assert!(matches!(
        migration_file_names_at(u64::MAX, 0, "a\\b"),
        Err(NamingError::ForbiddenCharacter)
    ));
}

#[test]
fn names_in_the_last_four_digit_year_are_recognised() {
    let names = migration_file_names_at(253402300799, 999_999_999, "last").unwrap();
    assert_eq!(names.up, "99991231235959_last.up.sql");
    match classify_up_name(&names.up) {
        UpName::Migration { version, description } => {
            assert_eq!(version, 99991231235959);
            assert_eq!(rollback_file_name(version, &description), names.down);
        }
        _ => panic!("not recognised"),
    }
    assert_eq!(render_timestamp(253402300800, 0).unwrap(), "+100000101000000");
}
