use krevetka::lang::{diff_entries, lang_diff, parse_lang_file, parse_lang_line, LangEntry};

fn entry(key: &str, value: Option<&str>) -> LangEntry {
    LangEntry { key: key.to_string(), value: value.map(|v| v.to_string()) }
}

#[test]
fn line_with_value_is_trimmed() {
    assert_eq!(parse_lang_line("  item.name = Нож  "), Some(entry("item.name", Some("Нож"))));
}

#[test]
fn blank_line_is_skipped() {
    assert_eq!(parse_lang_line(" \t \r"), None);
    assert_eq!(parse_lang_line(""), None);
}

#[test]
fn bare_key_has_no_value() {
    assert_eq!(parse_lang_line(" bare "), Some(entry("bare", None)));
}

#[test]
fn only_the_first_equals_sign_splits() {
    assert_eq!(parse_lang_line("a=b=c"), Some(entry("a", Some("b=c"))));
    assert_eq!(parse_lang_line("k="), Some(entry("k", Some(""))));
}

#[test]
fn unicode_white_space_is_trimmed() {
    assert_eq!(
        parse_lang_line("\u{3000}key\u{a0}=\u{2003}v\u{85}"),
        Some(entry("key", Some("v")))
    );
}

#[test]
fn file_lines_split_at_newlines() {
    assert_eq!(
        parse_lang_file("a=1\r\n\nb = 2\n"),
        vec![entry("a", Some("1")), entry("b", Some("2"))]
    );
    assert!(parse_lang_file("").is_empty());
}

#[test]
fn diff_lists_changed_added_and_removed_keys() {
    let game = "a=1\nb=2\nc=3\n";
    let copy = "a=1\nb=5\nd=4\ne\n";
    assert_eq!(lang_diff(game, copy), "~b = 2\n+c = 3\n-d = 4\n-e\n");
}

#[test]
fn identical_files_have_no_diff() {
    assert_eq!(lang_diff("x = 1\ny\n", "x = 1\ny\n"), "");
}

#[test]
fn last_entry_of_a_key_wins() {
    assert_eq!(lang_diff("a=1\na=2", "a=2"), "");
    assert_eq!(lang_diff("a=2\na=1", "a=2"), "~a = 1\n");
}

#[test]
fn missing_value_differs_from_empty_value() {
    assert_eq!(lang_diff("k=", "k"), "~k = \n");
    assert_eq!(lang_diff("k", ""), "+k = \n");
}

#[test]
fn diff_entries_works_on_parsed_entries() {
    let game = vec![entry("a", Some("1"))];
    let copy = vec![entry("b", None)];
    assert_eq!(diff_entries(&game, &copy), "+a = 1\n-b\n");
}
