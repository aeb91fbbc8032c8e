use jdkenv::env_win::{
    clear_java_home_if, elevation_failure, elevation_params, encode_wide_bytes, prepend_path,
    java_home_value_type, path_value_type, quote_arg, remove_from_path, set_java_home, ElevationFailure,
    JavaHomeUndo, Scope, TextValueType,
};

fn entries() -> Vec<String> {
    vec!["C:\\Users\\me\\.jdkenv\\current\\bin".to_string(), "C:\\Users\\me\\.jdkenv\\bin".to_string()]
}

#[test]
fn prepend_puts_entries_first_without_duplicates() {
    let cur = "C:\\Windows;c:\\users\\ME\\.jdkenv\\bin\\;;C:\\Tools";
    let new = prepend_path(cur, &entries()).unwrap();
    assert_eq!(
        new,
        "C:\\Users\\me\\.jdkenv\\current\\bin;C:\\Users\\me\\.jdkenv\\bin;C:\\Windows;;C:\\Tools"
    );
    // A second prepend changes nothing.
    assert_eq!(prepend_path(&new, &entries()), None);
}

#[test]
fn prepend_on_empty_path() {
    let new = prepend_path("", &entries()).unwrap();
    assert_eq!(new, "C:\\Users\\me\\.jdkenv\\current\\bin;C:\\Users\\me\\.jdkenv\\bin");
}

#[test]
fn prepend_already_in_front_differing_only_in_case() {
    let cur = "c:\\users\\me\\.jdkenv\\current\\bin;C:\\USERS\\me\\.jdkenv\\bin;C:\\Windows";
    assert_eq!(prepend_path(cur, &entries()), None);
}

#[test]
fn remove_undoes_prepend() {
    let cur = "C:\\Windows;;C:\\Tools";
    let new = prepend_path(cur, &entries()).unwrap();
    assert_eq!(remove_from_path(&new, &entries()).unwrap(), "C:\\Windows;;C:\\Tools");
    assert_eq!(remove_from_path(cur, &entries()), None);
}

#[test]
fn remove_keeps_everything_else_verbatim() {
    let cur = "A;;c:\\users\\me\\.jdkenv\\BIN\\ ;B";
    assert_eq!(remove_from_path(cur, &entries()).unwrap(), "A;;B");
}

#[test]
fn java_home_set_and_undo() {
    assert!(set_java_home(None, "C:\\j\\current"));
    assert!(!set_java_home(Some("c:\\J\\current\\".to_string()), "C:\\j\\current"));
    assert!(set_java_home(Some("C:\\other".to_string()), "C:\\j\\current"));
    assert!(matches!(clear_java_home_if(None, "C:\\j\\current"), JavaHomeUndo::NotSet));
    assert!(matches!(
        clear_java_home_if(Some("C:\\J\\CURRENT".to_string()), "C:\\j\\current"),
        JavaHomeUndo::Removed
    ));
    match clear_java_home_if(Some("C:\\jdk8".to_string()), "C:\\j\\current") {
        JavaHomeUndo::KeptForeign(v) => assert_eq!(v, "C:\\jdk8"),
        _ => panic!("a foreign JAVA_HOME must be kept"),
    }
}

#[test]
fn wide_bytes_are_utf16le_with_nul() {
    assert_eq!(encode_wide_bytes("A"), vec![0x41, 0, 0, 0]);
    assert_eq!(encode_wide_bytes(""), vec![0, 0]);
    assert_eq!(encode_wide_bytes("é"), vec![0xE9, 0, 0, 0]);
    assert_eq!(encode_wide_bytes("😀"), vec![0x3D, 0xD8, 0x00, 0xDE, 0, 0]);
    let s = "C:\\Jävä\u{1F600}";
    let expected: Vec<u8> = s.encode_utf16().chain(std::iter::once(0)).flat_map(|u| u.to_le_bytes()).collect();
    assert_eq!(encode_wide_bytes(s), expected);
}

#[test]
fn arguments_are_quoted_when_needed() {
    assert_eq!(quote_arg("setup"), "setup");
    assert_eq!(quote_arg(""), "\"\"");
    assert_eq!(quote_arg("a b"), "\"a b\"");
    assert_eq!(quote_arg("say \"hi\""), "\"say \\\"hi\\\"\"");
    let args = vec!["setup".to_string(), "--system".to_string(), "x y".to_string()];
    assert_eq!(elevation_params(&args), "setup --system \"x y\"");
    assert_eq!(elevation_params(&Vec::new()), "");
}

#[test]
fn scopes_and_failures() {
    assert_eq!(Scope::User.subkey(), "Environment");
    assert_eq!(Scope::System.subkey(), "SYSTEM\\CurrentControlSet\\Control\\Session Manager\\Environment");
    assert_eq!(Scope::User.name(), "user");
    assert_eq!(Scope::System.name(), "system");
    assert!(matches!(elevation_failure(1223), ElevationFailure::Cancelled));
    assert!(matches!(elevation_failure(5), ElevationFailure::Failed(5)));
}

#[test]
fn undo_twice_changes_nothing() {
    let cur = "C:\\Users\\me\\.jdkenv\\current\\bin;A;C:\\Users\\me\\.jdkenv\\bin";
    let once = remove_from_path(cur, &entries()).unwrap();
    assert_eq!(once, "A");
    assert_eq!(remove_from_path(&once, &entries()), None);
}

#[test]
fn prepend_keeps_empty_parts_when_entries_are_in_front() {
    let e = vec!["C:/j/current/bin".to_string(), "C:/j/bin".to_string()];
    assert_eq!(prepend_path("C:/j/current/bin;C:/j/bin;;C:/Windows", &e), None);
    assert_eq!(prepend_path("C:/j/current/bin;C:/j/bin;C:/Windows;", &e), None);
    assert_eq!(
        prepend_path("C:/Windows;;C:/j/bin;", &e).unwrap(),
        "C:/j/current/bin;C:/j/bin;C:/Windows;;"
    );
}

#[test]
fn prepend_keeps_a_lone_separator() {
    let e = vec!["C:/j/bin".to_string()];
    assert_eq!(prepend_path(";", &e).unwrap(), "C:/j/bin;;");
}

#[test]
fn setup_then_undo_restores_path() {
    let cur = "C:\\Windows;;C:\\Tools;";
    let new = prepend_path(cur, &entries()).unwrap();
    assert_eq!(remove_from_path(&new, &entries()).unwrap(), cur);
}

#[test]
fn prepend_is_idempotent_with_an_empty_entry() {
    let e = vec![String::new()];
    let once = prepend_path("A", &e).unwrap();
    assert_eq!(once, ";A");
    assert_eq!(prepend_path(&once, &e), None);
}

#[test]
fn an_entry_that_trims_to_nothing_takes_the_empty_parts() {
    let e = vec![" ".to_string()];
    let once = prepend_path("A;;B", &e).unwrap();
    assert_eq!(once, " ;A;B");
    assert_eq!(prepend_path(&once, &e), None);
    assert_eq!(remove_from_path(&once, &e).unwrap(), "A;B");
}

#[test]
fn registry_value_types() {
    assert_eq!(path_value_type(None), TextValueType::ExpandSz);
    assert_eq!(path_value_type(Some(TextValueType::Sz)), TextValueType::Sz);
    assert_eq!(path_value_type(Some(TextValueType::ExpandSz)), TextValueType::ExpandSz);
    assert_eq!(java_home_value_type(), TextValueType::Sz);
}
