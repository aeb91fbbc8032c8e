//! `jdkenv update`: self-update the jdkenv binary from GitHub Releases.
//!
//! The latest release tag is compared with the running version; if it is
//! newer (or the update is forced), the matching `jdkenv-<arch>.exe` replaces
//! the canonical binary at `%USERPROFILE%\.jdkenv\bin\jdkenv.exe`.

use vstd::prelude::*;

use crate::arch::Arch;
use crate::paths::{join_path, join_path_exec, Layout};
use crate::text::{chars_of, string_of, strip_prefix_all, trim_start_matches};
use crate::version::{is_newer, newer};

verus! {

/// What `update` does.
#[derive(Debug, Clone, Copy, PartialEq, Eq, Structural)]
pub enum UpdateAction {
    /// The running version is the latest: nothing to do.
    UpToDate,
    /// A newer release exists: install it.
    Update,
    /// No newer release, but `--force`: install the latest again.
    Reinstall,
}

/// The version of a release tag: the tag without its leading `v`s.
pub open spec fn tag_version(tag: Seq<char>) -> Seq<char> {
    strip_prefix_all(tag, seq!['v'])
}

/// The version of a release tag (`v0.2.1` is `0.2.1`).
pub fn version_of_tag(tag: &str) -> (r: String)
    ensures
        r@ == tag_version(tag@),
{
    let cs = chars_of(tag);
    let v: Vec<char> = vec!['v'];
    assert(v@ == seq!['v']);
    let t = trim_start_matches(&cs, &v);
    string_of(&t)
}

/// Whether to update: when the latest release is strictly newer than the
/// running version; otherwise reinstall only if forced.
pub fn update_action(latest: &str, current: &str, force: bool) -> (r: UpdateAction)
    ensures
        newer(latest@, current@) ==> r == UpdateAction::Update,
        !newer(latest@, current@) && force ==> r == UpdateAction::Reinstall,
        !newer(latest@, current@) && !force ==> r == UpdateAction::UpToDate,
{
    if is_newer(latest, current) {
        UpdateAction::Update
    } else if force {
        UpdateAction::Reinstall
    } else {
        UpdateAction::UpToDate
    }
}

/// The release asset for an architecture: `jdkenv-<arch>.exe`.
pub fn asset_name(arch: Arch) -> (r: String)
    ensures
        r@ == "jdkenv-"@ + arch.asset_name() + ".exe"@,
{
    let mut r = String::from_str("jdkenv-");
    r.append(arch.release_asset());
    r.append(".exe");
    r
}

/// Where a release asset is downloaded from.
pub fn asset_url(tag: &str, asset: &str) -> (r: String)
    ensures
        r@ == "https://github.com/Mecogumi/jdkenv/releases/download/"@ + tag@ + "/"@ + asset@,
{
    let mut r = String::from_str("https://github.com/Mecogumi/jdkenv/releases/download/");
    r.append(tag);
    r.append("/");
    r.append(asset);
    r
}

/// The GitHub API address of the latest release.
pub fn latest_release_url() -> (r: String)
    ensures
        r@ == "https://api.github.com/repos/Mecogumi/jdkenv/releases/latest"@,
{
    String::from_str("https://api.github.com/repos/Mecogumi/jdkenv/releases/latest")
}

/// The canonical binary on PATH that `update` replaces, wherever this
/// process runs from.
pub fn target_path(layout: &Layout) -> (r: String)
    ensures
        r@ == join_path(layout.bin@, "jdkenv.exe"@),
{
    join_path_exec(layout.bin.as_str(), "jdkenv.exe")
}

/// The backup name that the old binary is moved aside to during the swap.
pub fn backup_path(layout: &Layout) -> (r: String)
    ensures
        r@ == join_path(layout.bin@, "jdkenv.exe.old"@),
{
    join_path_exec(layout.bin.as_str(), "jdkenv.exe.old")
}

/// Where the new binary is staged (inside `bin\`, so that the final rename
/// never crosses drives).
pub fn staged_path(layout: &Layout) -> (r: String)
    ensures
        r@ == join_path(layout.bin@, ".jdkenv-update.exe"@),
{
    join_path_exec(layout.bin.as_str(), ".jdkenv-update.exe")
}

} // verus!
