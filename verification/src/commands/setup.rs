//! `jdkenv setup [--system] [--undo]`: register PATH and JAVA_HOME
//! (idempotently), or revert that.

use vstd::prelude::*;

use crate::paths::{join_path, Layout};

verus! {

/// The PATH entries that `setup` puts in front, in priority order: first
/// `current\bin` (so that the active `java` wins), then jdkenv's own `bin`
/// (so that `jdkenv` is found).
pub fn path_entries(layout: &Layout) -> (r: Vec<String>)
    ensures
        r@.len() == 2,
        r@[0]@ == join_path(layout.current@, "bin"@),
        r@[1]@ == layout.bin@,
{
    let a = layout.current_bin();
    let b = layout.bin.clone();
    vec![a, b]
}

/// Whether the other processes must be told that the environment changed:
/// exactly when PATH or JAVA_HOME was written (after `setup`) or removed
/// (after `setup --undo`).
pub fn should_broadcast(path_changed: bool, java_home_changed: bool) -> (r: bool)
    ensures
        r == (path_changed || java_home_changed),
{
    path_changed || java_home_changed
}

/// The arguments of the elevated relaunch of `setup --system`.
pub fn elevated_args(undo: bool) -> (r: Vec<String>)
    ensures
        undo ==> r@.len() == 3 && r@[0]@ == "setup"@ && r@[1]@ == "--system"@ && r@[2]@
            == "--undo"@,
        !undo ==> r@.len() == 2 && r@[0]@ == "setup"@ && r@[1]@ == "--system"@,
{
    let mut r: Vec<String> = Vec::new();
    r.push(String::from_str("setup"));
    r.push(String::from_str("--system"));
    if undo {
        r.push(String::from_str("--undo"));
    }
    r
}

} // verus!
