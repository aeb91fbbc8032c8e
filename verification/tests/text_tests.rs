use jdkenv::text::{
    chars_of, contains, join_chars, replace_chars, split_chars, starts_with, string_of, trim,
    trim_end_matches_char, trim_start_matches,
};

fn chars(s: &str) -> Vec<char> {
    s.chars().collect()
}

fn text(v: &[char]) -> String {
    v.iter().collect()
}

#[test]
fn chars_round_trip() {
    assert_eq!(chars_of("añb€"), vec!['a', 'ñ', 'b', '€']);
    assert_eq!(string_of(&['a', 'ñ']), "añ");
}

#[test]
fn split_and_join_like_std() {
    let parts = split_chars(&chars("a;;b;"), ';');
    let parts_text: Vec<String> = parts.iter().map(|p| text(p)).collect();
    assert_eq!(parts_text, vec!["a", "", "b", ""]);
    assert_eq!(text(&join_chars(&parts, ';')), "a;;b;");
    assert_eq!(split_chars(&chars(""), ';').len(), 1);
}

#[test]
fn trims_like_std() {
    assert_eq!(text(&trim(&chars(" \t x y \u{3000}"))), "x y");
    assert_eq!(text(&trim_end_matches_char(&chars("C:\\a\\\\"), '\\')), "C:\\a");
    assert_eq!(text(&trim_start_matches(&chars("vvv1.0"), &['v'])), "1.0");
    assert_eq!(text(&trim_start_matches(&chars("v1.0"), &[])), "v1.0");
    assert_eq!(text(&trim_start_matches(&chars("ababa!"), &['a', 'b'])), "a!");
}

#[test]
fn searches_like_std() {
    assert!(contains(&chars("c:\\oracle\\java\\javapath"), &chars("java\\java")));
    assert!(!contains(&chars("abc"), &chars("abd")));
    assert!(contains(&chars("abc"), &chars("")));
    assert!(starts_with(&chars("abc"), &chars("ab")));
    assert!(!starts_with(&chars("a"), &chars("ab")));
    assert_eq!(text(&replace_chars(&chars("it's"), '\'', &['\'', '\''])), "it''s");
}
