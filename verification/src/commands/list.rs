//! `jdkenv list` (installed) and `jdkenv list --remote` (foojay).

use vstd::prelude::*;

use crate::foojay::RemoteListing;

verus! {

/// A line of the local listing: `*` in front of the active JDK, a space in
/// front of the others, then a space and the folder name.
pub fn local_line(dir_name: &str, active: bool) -> (r: String)
    ensures
        r@ == (if active { "*"@ } else { " "@ }) + " "@ + dir_name@,
{
    let mut r = if active {
        String::from_str("*")
    } else {
        String::from_str(" ")
    };
    r.append(" ");
    r.append(dir_name);
    r
}

/// What the remote listing covers, for its header.
pub fn remote_scope(distribution: Option<&str>, version: Option<&str>) -> (r: String)
    ensures
        r@ == match (distribution, version) {
            (Some(d), Some(v)) => d@ + " "@ + v@,
            (Some(d), None) => d@,
            (None, Some(v)) => "all distributions, version "@ + v@,
            (None, None) => "all distributions"@,
        },
{
    match (distribution, version) {
        (Some(d), Some(v)) => {
            let mut r = String::from_str(d);
            r.append(" ");
            r.append(v);
            r
        },
        (Some(d), None) => String::from_str(d),
        (None, Some(v)) => {
            let mut r = String::from_str("all distributions, version ");
            r.append(v);
            r
        },
        (None, None) => String::from_str("all distributions"),
    }
}

/// Whether the remote listing has nothing to show.
pub fn nothing_available(listings: &Vec<RemoteListing>) -> (r: bool)
    ensures
        r == forall|k: int| 0 <= k < listings@.len() ==> (#[trigger] listings@[k]).versions@.len() == 0,
{
    let mut i: usize = 0;
    while i < listings.len()
        invariant
            i <= listings.len(),
            forall|k: int| 0 <= k < i ==> (#[trigger] listings@[k]).versions@.len() == 0,
        decreases listings.len() - i,
    {
        if listings[i].versions.len() > 0 {
            return false;
        }
        i += 1;
    }
    true
}

} // verus!
