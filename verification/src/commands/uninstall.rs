//! `jdkenv uninstall <version>`: deletes the version's folder, unless it is
//! the active one.

use vstd::prelude::*;

use crate::paths::InstalledJdk;

verus! {

/// An uninstall refused because the version is the active one: deleting it
/// would leave the `current` junction dangling, and `java` and JAVA_HOME
/// pointing at nothing.
pub struct ActiveVersion {
    pub dir_name: String,
}

/// What the user is told when the active version is not uninstalled.
pub open spec fn active_version_text(dir_name: Seq<char>) -> Seq<char> {
    "'"@ + dir_name
        + "' is the ACTIVE version (current).\nSwitch to another one before uninstalling it:  jdkenv global <other-version>"@
}

impl ActiveVersion {
    /// The explanation, on two lines.
    pub fn message(&self) -> (r: String)
        ensures
            r@ == active_version_text(self.dir_name@),
    {
        let mut r = String::from_str("'");
        r.append(self.dir_name.as_str());
        r.append(
            "' is the ACTIVE version (current).\nSwitch to another one before uninstalling it:  jdkenv global <other-version>",
        );
        r
    }
}

/// The JDK to delete: the one the query found, unless it is the active one.
pub fn uninstall_target(jdk: InstalledJdk, active: bool) -> (r: Result<InstalledJdk, ActiveVersion>)
    ensures
        active ==> (r matches Err(e) && e.dir_name@ == jdk.dir_name@),
        !active ==> (r matches Ok(j) && j@ == jdk@),
{
    if active {
        Err(ActiveVersion { dir_name: jdk.dir_name })
    } else {
        Ok(jdk)
    }
}

} // verus!
