use jdkenv::arch::Arch;
use jdkenv::foojay::{
    content_length, group_by_distribution, list_remote, packages_query, resolve, staging_paths,
    Links, Package,
};

fn pkg(dist: &str, version: &str) -> Package {
    Package {
        distribution: dist.to_string(),
        java_version: version.to_string(),
        filename: format!("{dist}-{version}.zip"),
        links: Links { pkg_download_redirect: format!("https://x/{dist}/{version}") },
    }
}

fn versions(v: &[Package]) -> Vec<String> {
    v.iter().map(|p| p.java_version.clone()).collect()
}

#[test]
fn query_has_fixed_filters() {
    let q = packages_query(Some("21"), Some("temurin"), Arch::X64, true);
    let want: Vec<(String, String)> = [
        ("package_type", "jdk"),
        ("operating_system", "windows"),
        ("architecture", "x64"),
        ("archive_type", "zip"),
        ("distribution", "temurin"),
        ("version", "21"),
        ("latest", "available"),
    ]
    .iter()
    .map(|(a, b)| (a.to_string(), b.to_string()))
    .collect();
    assert_eq!(q, want);
    let q = packages_query(None, None, Arch::Aarch64, false);
    assert_eq!(q.len(), 4);
    assert_eq!(q[2], ("architecture".to_string(), "aarch64".to_string()));
}

#[test]
fn remote_list_sorted_ascending() {
    let out = list_remote(vec![pkg("t", "21.0.5+11"), pkg("t", "8.0.432"), pkg("t", "17.0.13"), pkg("t", "11.0.25")]);
    assert_eq!(versions(&out), vec!["8.0.432", "11.0.25", "17.0.13", "21.0.5+11"]);
}

#[test]
fn resolve_takes_newest_build() {
    let p = resolve(vec![pkg("t", "21.0.4"), pkg("t", "21.0.5+11"), pkg("t", "21.0.3")], "21", "t", Arch::X64)
        .ok()
        .unwrap();
    assert_eq!(p.java_version, "21.0.5+11");
    let p = resolve(vec![pkg("t", "21.0.5+9"), pkg("u", "21.0.5+11")], "21", "t", Arch::X64).ok().unwrap();
    assert_eq!(p.distribution, "u");
    match resolve(Vec::new(), "99", "nobody", Arch::Aarch64) {
        Err(e) => {
            assert_eq!(e.distribution, "nobody");
            assert_eq!(e.version, "99");
            assert_eq!(e.arch, Arch::Aarch64);
            assert_eq!(
                e.message(),
                "no build of 'nobody' 99 for Windows/aarch64 (.zip) on foojay.\n\
                 Check versions with: jdkenv list --remote --distribution nobody"
            );
        }
        Ok(_) => panic!("no build expected"),
    }
}

#[test]
fn grouping_by_distribution() {
    let sorted = list_remote(vec![pkg("zulu", "21.0.5"), pkg("temurin", "17.0.13"), pkg("zulu", "17.0.13"), pkg("temurin", "21.0.5")]);
    let groups = group_by_distribution(&sorted);
    assert_eq!(groups.len(), 2);
    assert_eq!(groups[0].distribution, "temurin");
    assert_eq!(groups[0].versions, vec!["17.0.13", "21.0.5"]);
    assert_eq!(groups[1].distribution, "zulu");
    assert_eq!(groups[1].versions, vec!["17.0.13", "21.0.5"]);
    assert!(group_by_distribution(&Vec::new()).is_empty());
}

#[test]
fn content_length_parses_or_zero() {
    assert_eq!(content_length(Some("1024")), 1024);
    assert_eq!(content_length(Some("abc")), 0);
    assert_eq!(content_length(Some("")), 0);
    assert_eq!(content_length(None), 0);
}

#[test]
fn staging_inside_versions() {
    let (zip, stage) = staging_paths("C:\\j\\versions", Some("temurin-21.0.5"));
    assert_eq!(zip, "C:\\j\\versions\\.download-temurin-21.0.5.zip");
    assert_eq!(stage, "C:\\j\\versions\\.stage-temurin-21.0.5");
    let (zip, stage) = staging_paths("C:\\j\\versions", None);
    assert_eq!(zip, "C:\\j\\versions\\.download-jdk.zip");
    assert_eq!(stage, "C:\\j\\versions\\.stage-jdk");
}

#[test]
fn package_folder_name() {
    assert_eq!(pkg("temurin", "21.0.5+11").dir_name(), "temurin-21.0.5+11");
}

#[test]
fn architectures() {
    assert_eq!(Arch::X64.foojay(), "x64");
    assert_eq!(Arch::Aarch64.foojay(), "aarch64");
    assert_eq!(Arch::X64.release_asset(), "x64");
    assert_eq!(Arch::Aarch64.release_asset(), "arm64");
    assert_eq!(Arch::from_name("x86_64").ok(), Some(Arch::X64));
    assert_eq!(Arch::from_name("aarch64").ok(), Some(Arch::Aarch64));
    match Arch::from_name("riscv64") {
        Err(e) => assert_eq!(e.name, "riscv64"),
        Ok(_) => panic!("unsupported"),
    }
}

#[test]
fn remote_list_keeps_order_of_equal_versions() {
    let out = list_remote(vec![pkg("b", "21.0.5+9"), pkg("a", "17"), pkg("c", "21.0.5+7"), pkg("d", "21.0.5")]);
    let dists: Vec<String> = out.iter().map(|p| p.distribution.clone()).collect();
    assert_eq!(dists, vec!["a", "b", "c", "d"]);
}
