use pg_trellis::schema_dump::{
    schema_dump_action, strip_restrict_directives, DumpAction, SCHEMA_DUMP_VERSION,
};

fn reference(text: &str) -> String {
    text.lines()
        .filter(|line| !matches!(line.split_whitespace().next(), Some("\\restrict" | "\\unrestrict")))
        .collect::<Vec<_>>()
        .join("\n")
}

#[test]
fn restrict_lines_are_removed() {
    let dump = "\\restrict abc\nCREATE TABLE t (id int);\n\\unrestrict abc\n";
    assert_eq!(strip_restrict_directives(dump), "CREATE TABLE t (id int);");
}

#[test]
fn indented_and_crlf_directives() {
    let dump = "  \\restrict key\r\nSELECT 1;\r\n\t\\unrestrict\r\nSELECT 2;";
    assert_eq!(strip_restrict_directives(dump), "SELECT 1;\nSELECT 2;");
}

#[test]
fn words_that_only_start_like_directives_stay() {
    let dump = "\\restricted\n\\restrict\nrestrict\n x \\restrict";
    assert_eq!(strip_restrict_directives(dump), "\\restricted\nrestrict\n x \\restrict");
}

#[test]
fn agrees_with_std_lines() {
    let cases = [
        "",
        "\n",
        "\n\n",
        "a",
        "a\n",
        "a\r\n",
        "a\r",
        "\r\n",
        "a\n\nb",
        "\\restrict\n",
        "\\restrict",
        "x\n\\unrestrict y\r\n\r\nz\r",
        "   \n\\restrict\t1\n  a  \n",
        "ünïcode \\restrict\n\u{3000}\\unrestrict\nend",
    ];
    for case in cases {
        assert_eq!(strip_restrict_directives(case), reference(case), "case {case:?}");
    }
}

#[test]
fn schema_dump_is_recorded_as_version_zero() {
    assert_eq!(SCHEMA_DUMP_VERSION, 0);
}

#[test]
fn dump_is_loaded_only_once() {
    assert_eq!(schema_dump_action(false), DumpAction::Load);
    assert_eq!(schema_dump_action(true), DumpAction::Skip);
}
