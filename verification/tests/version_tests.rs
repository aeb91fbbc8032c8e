use jdkenv::version::{
    is_newer, matches_componentwise, parse_u64_chars, parse_version, version_key,
    version_matches,
};

fn chars(s: &str) -> Vec<char> {
    s.chars().collect()
}

#[test]
fn build_metadata_does_not_affect_key() {
    assert_eq!(version_key("21.0.11+10"), vec![21, 0, 11]);
    assert_eq!(version_key("21.0.11+10"), version_key("21.0.11+11"));
    assert_eq!(version_key("21.0.11+10"), version_key("21.0.11"));
}

#[test]
fn key_takes_every_digit_run() {
    assert_eq!(version_key("17.0.13"), vec![17, 0, 13]);
    assert_eq!(version_key("jdk-21_35"), vec![21, 35]);
    assert_eq!(version_key(""), Vec::<u64>::new());
    assert_eq!(version_key("+5"), Vec::<u64>::new());
}

#[test]
fn key_drops_components_that_overflow() {
    assert_eq!(version_key("1.99999999999999999999.2"), vec![1, 2]);
    assert_eq!(version_key("18446744073709551615"), vec![u64::MAX]);
}

#[test]
fn parse_u64_follows_from_str() {
    assert_eq!(parse_u64_chars(&chars("42")), Some(42));
    assert_eq!(parse_u64_chars(&chars("+42")), Some(42));
    assert_eq!(parse_u64_chars(&chars("")), None);
    assert_eq!(parse_u64_chars(&chars("+")), None);
    assert_eq!(parse_u64_chars(&chars("-1")), None);
    assert_eq!(parse_u64_chars(&chars("4 2")), None);
    assert_eq!(parse_u64_chars(&chars("18446744073709551616")), None);
    assert_eq!(parse_u64_chars(&chars("18446744073709551615")), Some(u64::MAX));
}

#[test]
fn newer_is_strict() {
    assert!(is_newer("0.2.1", "0.2.0"));
    assert!(!is_newer("0.2.0", "0.2.1"));
    assert!(!is_newer("0.2.0", "0.2.0"));
    assert!(is_newer("0.10.0", "0.9.9"));
    assert!(is_newer("1.0.1", "1.0"));
    assert!(!is_newer("1.0", "1.0.1"));
    assert_eq!(parse_version("v0.2.1"), vec![0, 2, 1]);
}

#[test]
fn query_matches_by_components() {
    assert!(matches_componentwise("21.0.5", "21"));
    assert!(matches_componentwise("21.0.5", "21.0"));
    assert!(matches_componentwise("21.0.5", "21.0.5"));
    assert!(!matches_componentwise("21", "2"));
    assert!(!matches_componentwise("21.0.5", "21.0.5.1"));
    assert!(!matches_componentwise("21.0.5", "21.1"));
    assert!(matches_componentwise("temurin-21.0.5", "temurin-21.0.5"));
}

#[test]
fn query_matches_folder_or_version() {
    assert!(version_matches("temurin-21.0.5", "21.0.5", "21"));
    assert!(version_matches("temurin-21.0.5", "21.0.5", "temurin-21"));
    assert!(version_matches("temurin-21.0.5", "21.0.5", "temurin-21.0.5"));
    assert!(!version_matches("temurin-21.0.5", "21.0.5", "17"));
}
