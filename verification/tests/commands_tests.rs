use jdkenv::arch::Arch;
use jdkenv::commands::doctor::{any_same, java_home_status, path_scope_label, shadowing, JavaHomeStatus, Shadowing};
use jdkenv::commands::install::{after_install, install_dest, needs_setup_hint, AfterInstall};
use jdkenv::commands::list::{local_line, nothing_available, remote_scope};
use jdkenv::commands::set::{eval_hint, ps_quote, session_path_parts, session_script, PathEntry};
use jdkenv::commands::setup::{elevated_args, path_entries, should_broadcast};
use jdkenv::commands::uninstall::uninstall_target;
use jdkenv::commands::update::{
    asset_name, asset_url, backup_path, latest_release_url, staged_path, target_path, update_action,
    version_of_tag, UpdateAction,
};
use jdkenv::foojay::{Links, Package, RemoteListing};
use jdkenv::paths::{is_active, InstalledJdk, Layout};

fn entry(p: &str) -> PathEntry {
    PathEntry { path: p.to_string(), canonical: p.to_string() }
}

#[test]
fn powershell_quoting() {
    assert_eq!(ps_quote("C:\\it's"), "C:\\it''s");
    assert_eq!(ps_quote("plain"), "plain");
}

#[test]
fn session_path_puts_version_first_and_drops_earlier_sets() {
    let entries = vec![
        entry("C:\\Users\\me\\.jdkenv\\versions\\zulu-17\\bin"),
        entry("C:\\Windows"),
        entry("C:\\Users\\me\\.jdkenv\\current\\bin"),
        entry("c:\\users\\me\\.jdkenv\\VERSIONS\\temurin-21\\bin"),
    ];
    let bin = "C:\\Users\\me\\.jdkenv\\versions\\temurin-21.0.5\\bin";
    let parts = session_path_parts(bin, bin, "C:\\Users\\me\\.jdkenv\\versions", &entries);
    assert_eq!(parts, vec![bin, "C:\\Windows", "C:\\Users\\me\\.jdkenv\\current\\bin"]);
    let parts = session_path_parts(bin, "\\\\?\\c:\\x\\bin", "D:\\v", &vec![entry("C:\\x\\bin\\"), entry("C:\\y")]);
    assert_eq!(parts, vec![bin, "C:\\y"]);
}

#[test]
fn session_scripts() {
    assert_eq!(
        session_script("C:\\j's", "A;B", false),
        vec!["$env:JAVA_HOME = 'C:\\j''s'", "$env:Path = 'A;B'"]
    );
    assert_eq!(session_script("C:\\j", "A;B", true), vec!["set \"JAVA_HOME=C:\\j\"", "set \"PATH=A;B\""]);
    assert_eq!(eval_hint("21", false), "jdkenv set 21 | iex");
    assert_eq!(
        eval_hint("21", true),
        "jdkenv set 21 --cmd > \"%TEMP%\\jdkset.bat\" & call \"%TEMP%\\jdkset.bat\""
    );
}

#[test]
fn update_decisions() {
    assert_eq!(version_of_tag("v0.2.1"), "0.2.1");
    assert_eq!(version_of_tag("0.2.1"), "0.2.1");
    assert_eq!(update_action("0.2.1", "0.2.0", false), UpdateAction::Update);
    assert_eq!(update_action("0.2.0", "0.2.0", false), UpdateAction::UpToDate);
    assert_eq!(update_action("0.2.0", "0.2.0", true), UpdateAction::Reinstall);
    assert_eq!(update_action("0.1.9", "0.2.0", true), UpdateAction::Reinstall);
    assert_eq!(asset_name(Arch::X64), "jdkenv-x64.exe");
    assert_eq!(asset_name(Arch::Aarch64), "jdkenv-arm64.exe");
    assert_eq!(
        asset_url("v0.2.1", "jdkenv-x64.exe"),
        "https://github.com/Mecogumi/jdkenv/releases/download/v0.2.1/jdkenv-x64.exe"
    );
    assert_eq!(latest_release_url(), "https://api.github.com/repos/Mecogumi/jdkenv/releases/latest");
    let l = Layout::from_profile("C:\\Users\\me");
    assert_eq!(target_path(&l), "C:\\Users\\me\\.jdkenv\\bin\\jdkenv.exe");
    assert_eq!(backup_path(&l), "C:\\Users\\me\\.jdkenv\\bin\\jdkenv.exe.old");
    assert_eq!(staged_path(&l), "C:\\Users\\me\\.jdkenv\\bin\\.jdkenv-update.exe");
}

#[test]
fn doctor_checks() {
    let entries = vec!["C:\\Windows".to_string(), "\\\\?\\C:\\J\\current\\bin".to_string()];
    assert!(any_same(&entries, "c:\\j\\current\\bin\\"));
    assert!(!any_same(&vec!["C:\\j\\current\\bin_extra".to_string()], "C:\\j\\current\\bin"));
    assert_eq!(path_scope_label(true, true), Some("system"));
    assert_eq!(path_scope_label(true, false), Some("user"));
    assert_eq!(path_scope_label(false, false), None);
    assert_eq!(java_home_status(Some("c:\\J\\current\\"), "C:\\j\\current"), JavaHomeStatus::Current);
    assert_eq!(java_home_status(Some("C:\\jdk8"), "C:\\j\\current"), JavaHomeStatus::Elsewhere);
    assert_eq!(java_home_status(None, "C:\\j\\current"), JavaHomeStatus::Missing);
    assert_eq!(shadowing(None, "C:\\j\\current\\bin", ""), Shadowing::NoJava);
    assert_eq!(shadowing(Some("C:\\J\\Current\\Bin\\"), "C:\\j\\current\\bin", ""), Shadowing::Ours);
    assert_eq!(
        shadowing(Some("C:\\Program Files\\Common Files\\Oracle\\Java\\javapath"), "C:\\j\\current\\bin", ""),
        Shadowing::Other { oracle: true }
    );
    assert_eq!(shadowing(Some("C:\\jdk8\\bin"), "C:\\j\\current\\bin", "C:\\X\\JavaPath"), Shadowing::Other { oracle: true });
    assert_eq!(shadowing(Some("C:\\jdk8\\bin"), "C:\\j\\current\\bin", "C:\\Windows"), Shadowing::Other { oracle: false });
}

#[test]
fn install_helpers() {
    let p = Package {
        distribution: "temurin".to_string(),
        java_version: "21.0.5+11".to_string(),
        filename: "f.zip".to_string(),
        links: Links { pkg_download_redirect: "https://x".to_string() },
    };
    assert_eq!(install_dest("C:\\j\\versions", &p), "C:\\j\\versions\\temurin-21.0.5+11");
    assert!(needs_setup_hint(None, None, "C:\\j\\current\\bin"));
    assert!(needs_setup_hint(Some("C:\\Windows"), Some("C:\\x"), "C:\\j\\current\\bin"));
    assert!(!needs_setup_hint(Some("c:\\J\\CURRENT\\BIN;C:\\Windows"), None, "C:\\j\\current\\bin"));
    assert!(!needs_setup_hint(None, Some("C:\\j\\current\\bin"), "C:\\j\\current\\bin"));
}

#[test]
fn list_helpers() {
    assert_eq!(remote_scope(Some("zulu"), Some("21")), "zulu 21");
    assert_eq!(remote_scope(Some("zulu"), None), "zulu");
    assert_eq!(remote_scope(None, Some("21")), "all distributions, version 21");
    assert_eq!(remote_scope(None, None), "all distributions");
    assert!(nothing_available(&Vec::new()));
    let l = vec![RemoteListing { distribution: "t".to_string(), versions: vec!["21".to_string()] }];
    assert!(!nothing_available(&l));
}

#[test]
fn setup_helpers() {
    let l = Layout::from_profile("C:\\Users\\me");
    assert_eq!(path_entries(&l), vec!["C:\\Users\\me\\.jdkenv\\current\\bin", "C:\\Users\\me\\.jdkenv\\bin"]);
    assert_eq!(elevated_args(false), vec!["setup", "--system"]);
    assert_eq!(elevated_args(true), vec!["setup", "--system", "--undo"]);
}

#[test]
fn set_twice_gives_same_path() {
    let bin = "C:\\j\\versions\\temurin-21\\bin";
    let entries = vec![entry("C:\\j\\versions\\zulu-17\\bin"), entry("C:\\Windows"), entry("C:\\j\\current\\bin")];
    let first = session_path_parts(bin, bin, "C:\\j\\versions", &entries);
    let again: Vec<PathEntry> = first.iter().map(|p| entry(p)).collect();
    let second = session_path_parts(bin, bin, "C:\\j\\versions", &again);
    assert_eq!(first, second);
}

#[test]
fn local_listing_marks_the_active_jdk() {
    assert_eq!(local_line("temurin-21.0.5", true), "* temurin-21.0.5");
    assert_eq!(local_line("zulu-17.0.13", false), "  zulu-17.0.13");
}

#[test]
fn broadcast_only_after_a_change() {
    assert!(should_broadcast(true, false));
    assert!(should_broadcast(false, true));
    assert!(should_broadcast(true, true));
    assert!(!should_broadcast(false, false));
}

#[test]
fn active_version_compares_canonical_paths() {
    let jdk = "C:\\Users\\me\\.jdkenv\\versions\\temurin-21.0.5";
    assert!(is_active(Some("\\\\?\\C:\\users\\ME\\.jdkenv\\versions\\temurin-21.0.5\\"), jdk));
    assert!(!is_active(Some("C:\\Users\\me\\.jdkenv\\versions\\zulu-17.0.13"), jdk));
    assert!(!is_active(None, jdk));
}

#[test]
fn the_active_version_is_not_uninstalled() {
    let jdk = || InstalledJdk {
        dir_name: "temurin-21.0.5".to_string(),
        distribution: "temurin".to_string(),
        version: "21.0.5".to_string(),
        path: "C:\\j\\versions\\temurin-21.0.5".to_string(),
    };
    match uninstall_target(jdk(), true) {
        Err(e) => {
            assert_eq!(e.dir_name, "temurin-21.0.5");
            assert_eq!(
                e.message(),
                "'temurin-21.0.5' is the ACTIVE version (current).\n\
                 Switch to another one before uninstalling it:  jdkenv global <other-version>"
            );
        }
        Ok(_) => panic!("the active version must be kept"),
    }
    match uninstall_target(jdk(), false) {
        Ok(j) => assert_eq!(j.path, "C:\\j\\versions\\temurin-21.0.5"),
        Err(_) => panic!("an inactive version is uninstalled"),
    }
}

#[test]
fn the_first_install_is_activated() {
    assert!(matches!(after_install(false, "21.0.5+11"), AfterInstall::Activate));
    match after_install(true, "21.0.5+11") {
        AfterInstall::Suggest(m) => assert_eq!(m, "Activate it with:  jdkenv global 21.0.5+11"),
        AfterInstall::Activate => panic!("an active JDK stays active"),
    }
}
