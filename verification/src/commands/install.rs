//! `jdkenv install <version> --distribution <dist>`.

use vstd::prelude::*;

use crate::foojay::Package;
use crate::paths::{join_path, join_path_exec};
use crate::text::{chars_of, contains, contains_sub, lowercase, lowercase_chars};

verus! {

/// Where a package is installed: `versions\<distribution>-<java_version>`,
/// with the canonical names that foojay returned.
pub fn install_dest(versions_dir: &str, pkg: &Package) -> (r: String)
    ensures
        r@ == join_path(versions_dir@, pkg.distribution@ + "-"@ + pkg.java_version@),
{
    let d = pkg.dir_name();
    join_path_exec(versions_dir, d.as_str())
}

/// What follows an install.
pub enum AfterInstall {
    /// No JDK is active yet (there is no `current` junction): the new one
    /// becomes the active one.
    Activate,
    /// Another JDK is active: the user is told how to switch to the new one.
    Suggest(String),
}

/// The first JDK installed is activated; after that, `jdkenv global` is
/// suggested for the version just installed.
pub fn after_install(has_active: bool, java_version: &str) -> (r: AfterInstall)
    ensures
        !has_active ==> r is Activate,
        has_active ==> (r matches AfterInstall::Suggest(m) && m@
            == "Activate it with:  jdkenv global "@ + java_version@),
{
    if has_active {
        let mut m = String::from_str("Activate it with:  jdkenv global ");
        m.append(java_version);
        AfterInstall::Suggest(m)
    } else {
        AfterInstall::Activate
    }
}

/// A PATH value mentions `current\bin` (compared in lower case).
pub open spec fn mentions(path: Option<Seq<char>>, current_bin: Seq<char>) -> bool {
    match path {
        Some(p) => contains_sub(lowercase(p), lowercase(current_bin)),
        None => false,
    }
}

fn mentions_exec(path: Option<&str>, want: &Vec<char>, current_bin: &str) -> (r: bool)
    requires
        want@ == lowercase(current_bin@),
    ensures
        r == mentions(
            match path {
                Some(p) => Some(p@),
                None => None,
            },
            current_bin@,
        ),
{
    match path {
        Some(p) => {
            let l = lowercase_chars(&chars_of(p));
            contains(&l, want)
        },
        None => false,
    }
}

/// Whether to suggest running `setup` after the first install: when neither
/// the user nor the system PATH mentions `current\bin`.
pub fn needs_setup_hint(user_path: Option<&str>, system_path: Option<&str>, current_bin: &str) -> (r: bool)
    ensures
        r == !(mentions(
            match user_path {
                Some(p) => Some(p@),
                None => None,
            },
            current_bin@,
        ) || mentions(
            match system_path {
                Some(p) => Some(p@),
                None => None,
            },
            current_bin@,
        )),
{
    let want = lowercase_chars(&chars_of(current_bin));
    !(mentions_exec(user_path, &want, current_bin) || mentions_exec(system_path, &want, current_bin))
}

} // verus!
