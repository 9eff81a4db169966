use vic2enc_core::pa_migrate::extract_inline_chinese;
use vic2enc_core::script_line::{contains_chinese, parse_pa_line};

#[test]
fn parses_inline_translation_line() {
    let m = parse_pa_line("\t\tname = \"中国\" # China").unwrap();
    assert_eq!(m.indent, "\t\t");
    assert_eq!(m.key, "name");
    assert_eq!(m.value, "中国");
    assert_eq!(m.comment, "China");
}

#[test]
fn rejects_non_translation_lines() {
    assert!(parse_pa_line("name = \"plain english\"").is_none()); // no comment
    assert!(parse_pa_line("# just a comment").is_none());
    assert!(parse_pa_line("limit = { foo = bar }").is_none());
    assert!(parse_pa_line("name = \"中国\" #").is_none()); // empty comment
}

#[test]
fn extract_preserves_indent_and_swaps_in_english() {
    let src = "country_event = {\n\tname = \"北京\" # Beijing\n\tdesc = \"plain\"\n}\n";
    let (out, entries) = extract_inline_chinese(src);
    assert_eq!(
        out,
        "country_event = {\n\tname = \"Beijing\"\n\tdesc = \"plain\"\n}\n"
    );
    assert_eq!(entries, vec![("Beijing".to_string(), "北京".to_string())]);
}

#[test]
fn non_chinese_quoted_value_is_left_untouched() {
    let src = "name = \"Already English\" # Comment\n";
    let (out, entries) = extract_inline_chinese(src);
    assert_eq!(out, src);
    assert!(entries.is_empty());
}

#[test]
fn crlf_line_endings_are_preserved() {
    let src = "name = \"上海\" # Shanghai\r\n";
    let (out, _) = extract_inline_chinese(src);
    assert_eq!(out, "name = \"Shanghai\"\r\n");
}

#[test]
fn escaped_quote_stays_in_value_and_comment_is_trimmed() {
    let m = parse_pa_line("  k_1 = \"a\\\"b\"   #   Text here  ").unwrap();
    assert_eq!(m.indent, "  ");
    assert_eq!(m.key, "k_1");
    assert_eq!(m.value, "a\\\"b");
    assert_eq!(m.comment, "Text here");
    // something other than `#` after the value
    assert!(parse_pa_line("k = \"v\" x # c").is_none());
    // unclosed quote
    assert!(parse_pa_line("k = \"v # c").is_none());
    // key with a space inside
    assert!(parse_pa_line("a b = \"v\" # c").is_none());
}

#[test]
fn chinese_range_is_the_unified_ideographs() {
    assert!(contains_chinese("x中y"));
    assert!(contains_chinese("\u{4e00}"));
    assert!(contains_chinese("\u{9fff}"));
    assert!(!contains_chinese("\u{3400}"));
    assert!(!contains_chinese("ＡＢＣ"));
}

#[test]
fn several_lines_and_last_line_without_ending() {
    let src = "a = \"甲\" # A\nb = \"B\" # B\r\n  c = \"丙\" # C";
    let (out, entries) = extract_inline_chinese(src);
    assert_eq!(out, "a = \"A\"\nb = \"B\" # B\r\n  c = \"C\"");
    assert_eq!(
        entries,
        vec![
            ("A".to_string(), "甲".to_string()),
            ("C".to_string(), "丙".to_string())
        ]
    );
}

#[test]
fn extracting_a_migrated_script_again_changes_nothing() {
    let src = "\tname = \"南斯拉夫\" # Yugoslavia\r\nother = 1\n  desc = \"大公国\"   #  Grand Duchy  \nlast = \"王国\" # Kingdom";
    let (once, entries) = extract_inline_chinese(src);
    assert_eq!(entries.len(), 3);
    assert!(entries.iter().all(|(en, _)| !en.contains('"')));
    let (twice, again) = extract_inline_chinese(&once);
    assert_eq!(twice, once);
    assert!(again.is_empty());
}
