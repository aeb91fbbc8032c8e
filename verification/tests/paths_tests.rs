use jdkenv::paths::{
    installed_hint, join_path_exec, lower_path, same_canonical, select_unique, InstalledJdk,
    Layout, Selection,
};

fn jdk(name: &str) -> InstalledJdk {
    InstalledJdk::from_dir(format!("C:\\v\\{name}"), name.to_string()).unwrap()
}

fn names(v: &[InstalledJdk]) -> Vec<String> {
    v.iter().map(|j| j.dir_name.clone()).collect()
}

#[test]
fn layout_under_profile() {
    let l = Layout::from_profile("C:\\Users\\me");
    assert_eq!(l.root, "C:\\Users\\me\\.jdkenv");
    assert_eq!(l.bin, "C:\\Users\\me\\.jdkenv\\bin");
    assert_eq!(l.versions, "C:\\Users\\me\\.jdkenv\\versions");
    assert_eq!(l.current, "C:\\Users\\me\\.jdkenv\\current");
    assert_eq!(l.current_bin(), "C:\\Users\\me\\.jdkenv\\current\\bin");
}

#[test]
fn join_does_not_double_separators() {
    assert_eq!(join_path_exec("C:\\x\\", "bin"), "C:\\x\\bin");
    assert_eq!(join_path_exec("C:/x/", "bin"), "C:/x/bin");
    assert_eq!(join_path_exec("", "bin"), "bin");
}

#[test]
fn join_after_a_bare_drive_adds_no_separator() {
    assert_eq!(join_path_exec("C:", ".jdkenv"), "C:.jdkenv");
    assert_eq!(join_path_exec("d:", "x"), "d:x");
    assert_eq!(join_path_exec("1:", "x"), "1:\\x");
    assert_eq!(join_path_exec("C:\\", ".jdkenv"), "C:\\.jdkenv");
    let l = Layout::from_profile("C:");
    assert_eq!(l.root, "C:.jdkenv");
    assert_eq!(l.bin, "C:.jdkenv\\bin");
    assert_eq!(l.current_bin(), "C:.jdkenv\\current\\bin");
}

#[test]
fn folder_names_parse() {
    let j = jdk("temurin-21.0.5+11");
    assert_eq!(j.distribution, "temurin");
    assert_eq!(j.version, "21.0.5+11");
    assert_eq!(j.path, "C:\\v\\temurin-21.0.5+11");
    let j = jdk("oracle_open_jdk-17-ea");
    assert_eq!(j.distribution, "oracle_open_jdk");
    assert_eq!(j.version, "17-ea");
    assert!(InstalledJdk::from_dir("p".into(), ".stage-temurin-21".into()).is_none());
    assert!(InstalledJdk::from_dir("p".into(), "temurin".into()).is_none());
    assert!(InstalledJdk::from_dir("p".into(), "-21".into()).is_none());
    assert!(InstalledJdk::from_dir("p".into(), "temurin-".into()).is_none());
    assert_eq!(jdk("temurin-21.0.5").version_key(), vec![21, 0, 5]);
}

#[test]
fn installed_sorted_by_distribution_then_version() {
    let entries: Vec<(String, String)> = [
        "zulu-17.0.1",
        "temurin-21.0.10",
        ".download-x",
        "temurin-21.0.9",
        "corretto-17.0.13",
        "temurin-17.0.2",
        "notes",
    ]
    .iter()
    .map(|n| (format!("C:\\v\\{n}"), n.to_string()))
    .collect();
    let out = Layout::installed(entries);
    assert_eq!(
        names(&out),
        vec!["corretto-17.0.13", "temurin-17.0.2", "temurin-21.0.9", "temurin-21.0.10", "zulu-17.0.1"]
    );
}

#[test]
fn find_installed_takes_highest_match() {
    let all = vec![jdk("corretto-21.0.3"), jdk("temurin-21.0.5"), jdk("temurin-21.0.4"), jdk("temurin-17.0.9")];
    let found = Layout::find_installed(all, "21", None).unwrap();
    assert_eq!(found.dir_name, "temurin-21.0.5");
    let all = vec![jdk("corretto-21.0.6"), jdk("temurin-21.0.5")];
    let found = Layout::find_installed(all, "21", Some("temurin")).unwrap();
    assert_eq!(found.dir_name, "temurin-21.0.5");
    let all = vec![jdk("temurin-21.0.5")];
    assert!(Layout::find_installed(all, "2", None).is_none());
    let all = vec![jdk("temurin-21.0.5")];
    assert!(Layout::find_installed(all, "21", Some("zulu")).is_none());
}

#[test]
fn find_installed_takes_last_of_equal_versions() {
    let all = vec![jdk("temurin-21.0.5+7"), jdk("zulu-21.0.5+9")];
    let found = Layout::find_installed(all, "21", None).unwrap();
    assert_eq!(found.dir_name, "zulu-21.0.5+9");
}

#[test]
fn find_matching_and_select() {
    let all = vec![jdk("corretto-21.0.3"), jdk("temurin-21.0.5"), jdk("temurin-17.0.9")];
    let m = Layout::find_matching(all, "21", None);
    assert_eq!(names(&m), vec!["corretto-21.0.3", "temurin-21.0.5"]);
    match select_unique(m) {
        Err(Selection::Ambiguous(n)) => assert_eq!(n, vec!["corretto-21.0.3", "temurin-21.0.5"]),
        _ => panic!("expected ambiguity"),
    }
    let all = vec![jdk("corretto-21.0.3"), jdk("temurin-21.0.5")];
    let m = Layout::find_matching(all, "21", Some("temurin"));
    match select_unique(m) {
        Ok(j) => assert_eq!(j.dir_name, "temurin-21.0.5"),
        _ => panic!("expected one"),
    }
    assert!(matches!(select_unique(Vec::new()), Err(Selection::NoMatch)));
}

#[test]
fn hint_lists_installed() {
    let all = vec![jdk("temurin-21.0.5"), jdk("zulu-17.0.1")];
    assert_eq!(installed_hint(&all), "\nInstalled:\n  temurin-21.0.5\n  zulu-17.0.1");
    assert_eq!(
        installed_hint(&Vec::new()),
        "\nNo JDKs installed. Install one with: jdkenv install <version> --distribution <dist>"
    );
}

#[test]
fn canonical_paths_compare_loosely() {
    assert!(same_canonical("\\\\?\\C:\\Users\\Me\\.jdkenv\\versions\\x\\", "c:\\users\\me\\.jdkenv\\versions\\x"));
    assert!(!same_canonical("C:\\a\\bin", "C:\\a\\bin_extra"));
    assert_eq!(lower_path("C:\\Java\\"), "c:\\java");
}

#[test]
fn installed_ties_keep_folder_order() {
    let entries: Vec<(String, String)> = ["temurin-21.0.5+9", "temurin-21.0.5+7", "temurin-21.0.5"]
        .iter()
        .map(|n| (format!("C:\\v\\{n}"), n.to_string()))
        .collect();
    let out = Layout::installed(entries);
    assert_eq!(names(&out), vec!["temurin-21.0.5+9", "temurin-21.0.5+7", "temurin-21.0.5"]);
}
