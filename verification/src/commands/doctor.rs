//! `jdkenv doctor`: environment diagnostics.
//!
//! Detects the painful Windows case: another `java.exe` with priority in the
//! PATH (especially Oracle's `javapath` in the SYSTEM PATH, which beats the
//! user PATH), and checks the junction and JAVA_HOME.

use vstd::prelude::*;

use crate::paths::{
    canonical_form, lemma_lower_path_ignores_case_and_trailing_separators, lower_path, same_canonical,
    spec_lower_path,
};
use crate::text::{
    chars_eq, chars_of, contains, contains_sub, lowercase, lowercase_chars, trim_end_char,
    trim_end_matches_char,
};

verus! {

/// Whether any of the canonicalized PATH entries is the canonicalized
/// `target` (the entry-by-entry comparison; a substring test would take
/// `...\bin_extra` for `...\bin`).
pub fn any_same(entries: &Vec<String>, target: &str) -> (r: bool)
    ensures
        r == exists|k: int|
            0 <= k < entries@.len() && canonical_form(#[trigger] entries@[k]@) == canonical_form(
                target@,
            ),
{
    let mut i: usize = 0;
    while i < entries.len()
        invariant
            i <= entries.len(),
            forall|k: int|
                0 <= k < i ==> canonical_form(#[trigger] entries@[k]@) != canonical_form(target@),
        decreases entries.len() - i,
    {
        if same_canonical(entries[i].as_str(), target) {
            return true;
        }
        i += 1;
    }
    false
}

/// Which PATH holds `current\bin`: the system one wins the label.
pub fn path_scope_label(in_user: bool, in_system: bool) -> (r: Option<&'static str>)
    ensures
        in_system ==> (r matches Some(s) && s@ == "system"@),
        !in_system && in_user ==> (r matches Some(s) && s@ == "user"@),
        !in_system && !in_user ==> r is None,
{
    if in_system {
        Some("system")
    } else if in_user {
        Some("user")
    } else {
        None
    }
}

/// The state of JAVA_HOME.
#[derive(Debug, Clone, Copy, PartialEq, Eq, Structural)]
pub enum JavaHomeStatus {
    /// It points at `current`.
    Current,
    /// It points elsewhere.
    Elsewhere,
    /// It is not defined.
    Missing,
}

/// Whether JAVA_HOME (the user's, else the system's) points at `current`,
/// comparing without trailing `\` and ignoring case.
pub fn java_home_status(java_home: Option<&str>, current: &str) -> (r: JavaHomeStatus)
    ensures
        match java_home {
            None => r == JavaHomeStatus::Missing,
            Some(v) => if spec_lower_path(v@) == spec_lower_path(current@) {
                r == JavaHomeStatus::Current
            } else {
                r == JavaHomeStatus::Elsewhere
            },
        },
        java_home matches Some(v) ==> (r == JavaHomeStatus::Current <==> lowercase(
            trim_end_char(v@, '\\'),
        ) == lowercase(trim_end_char(current@, '\\'))),
{
    proof {
        if let Some(v) = java_home {
            lemma_lower_path_ignores_case_and_trailing_separators(v@, current@);
        }
    }
    match java_home {
        None => JavaHomeStatus::Missing,
        Some(v) => {
            let a = lower_path(v);
            let b = lower_path(current);
            if chars_eq(&chars_of(a.as_str()), &chars_of(b.as_str())) {
                JavaHomeStatus::Current
            } else {
                JavaHomeStatus::Elsewhere
            }
        },
    }
}

/// Which `java.exe` comes first on the effective PATH.
#[derive(Debug, Clone, Copy, PartialEq, Eq, Structural)]
pub enum Shadowing {
    /// There is none.
    NoJava,
    /// It is jdkenv's.
    Ours,
    /// Another one wins; `oracle` where it is Oracle's `javapath`.
    Other { oracle: bool },
}

/// The folder of Oracle's `javapath`, in lower case.
pub open spec fn oracle_javapath() -> Seq<char> {
    "oracle\\java\\javapath"@
}

/// The verdict on the first folder of the effective PATH that holds a
/// `java.exe`: jdkenv's own `current\bin`, or another one, and then whether
/// it is Oracle's `javapath` (by its folder, or because the system PATH
/// mentions `javapath`).
pub fn shadowing(first_java_dir: Option<&str>, our_bin: &str, system_path_raw: &str) -> (r:
    Shadowing)
    ensures
        match first_java_dir {
            None => r == Shadowing::NoJava,
            Some(d) => if spec_lower_path(d@) == trim_end_char(spec_lower_path(our_bin@), '\\') {
                r == Shadowing::Ours
            } else {
                r == Shadowing::Other {
                    oracle: contains_sub(spec_lower_path(d@), oracle_javapath()) || contains_sub(
                        lowercase(system_path_raw@),
                        "javapath"@,
                    ),
                }
            },
        },
{
    match first_java_dir {
        None => Shadowing::NoJava,
        Some(d) => {
            let dir_l = chars_of(lower_path(d).as_str());
            let ours = chars_of(lower_path(our_bin).as_str());
            let ours_t = trim_end_matches_char(&ours, '\\');
            if chars_eq(&dir_l, &ours_t) {
                Shadowing::Ours
            } else {
                let pat = chars_of("oracle\\java\\javapath");
                let sys = lowercase_chars(&chars_of(system_path_raw));
                let jp = chars_of("javapath");
                let oracle = contains(&dir_l, &pat) || contains(&sys, &jp);
                Shadowing::Other { oracle }
            }
        },
    }
}

} // verus!
