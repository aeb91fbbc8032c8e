//! The foojay Disco API (`https://api.foojay.io/disco/v3.0`): the query that
//! jdkenv sends, and what it makes of the packages that come back.

use vstd::prelude::*;

use crate::arch::Arch;
use crate::paths::{join_path, join_path_exec};
use crate::sort::{is_sorted, is_stable_permutation, sort, view_seq, Ordered};
use crate::text::{chars_eq, chars_of};
use crate::version::{
    key_less, key_lt, lemma_key_lt_irreflexive, lemma_key_lt_total, lemma_key_lt_transitive,
    parse_u64, parse_u64_chars, spec_version_key, version_key,
};

verus! {

/// A package that foojay returns in `result[]`.
pub struct Package {
    pub distribution: String,
    pub java_version: String,
    pub filename: String,
    pub links: Links,
}

/// The links of a package.
pub struct Links {
    pub pkg_download_redirect: String,
}

/// What a package is, as text.
pub struct PackageView {
    pub distribution: Seq<char>,
    pub java_version: Seq<char>,
    pub filename: Seq<char>,
    pub download: Seq<char>,
}

impl View for Package {
    type V = PackageView;

    open spec fn view(&self) -> PackageView {
        PackageView {
            distribution: self.distribution@,
            java_version: self.java_version@,
            filename: self.filename@,
            download: self.links.pkg_download_redirect@,
        }
    }
}

/// Packages order by the key of their Java version.
pub open spec fn package_before(a: PackageView, b: PackageView) -> bool {
    key_lt(spec_version_key(a.java_version), spec_version_key(b.java_version))
}

impl Ordered for Package {
    open spec fn before(a: PackageView, b: PackageView) -> bool {
        package_before(a, b)
    }

    proof fn lemma_before_irreflexive(a: PackageView) {
        lemma_key_lt_irreflexive(spec_version_key(a.java_version));
    }

    proof fn lemma_before_transitive(a: PackageView, b: PackageView, c: PackageView) {
        lemma_key_lt_transitive(
            spec_version_key(a.java_version),
            spec_version_key(b.java_version),
            spec_version_key(c.java_version),
        );
    }

    proof fn lemma_before_connected(a: PackageView, b: PackageView, c: PackageView) {
        let (ka, kb, kc) = (
            spec_version_key(a.java_version),
            spec_version_key(b.java_version),
            spec_version_key(c.java_version),
        );
        lemma_key_lt_total(ka, kb);
        if key_lt(kb, ka) {
            lemma_key_lt_transitive(kb, ka, kc);
        }
    }

    fn precedes(&self, other: &Self) -> (r: bool) {
        let a = version_key(self.java_version.as_str());
        let b = version_key(other.java_version.as_str());
        key_less(&a, &b)
    }
}

impl Package {
    /// The folder that holds this package once installed:
    /// `<distribution>-<java_version>`, with foojay's canonical names.
    pub fn dir_name(&self) -> (r: String)
        ensures
            r@ == self.distribution@ + "-"@ + self.java_version@,
    {
        let mut r = self.distribution.clone();
        r.append("-");
        r.append(self.java_version.as_str());
        r
    }
}

// ---------------------------------------------------------------------------
// The query.
// ---------------------------------------------------------------------------

/// A query parameter `(name, value)`.
pub open spec fn param(name: Seq<char>, value: Seq<char>) -> (Seq<char>, Seq<char>) {
    (name, value)
}

/// The parameters of jdkenv's `/packages` query: always a JDK for Windows, as
/// a `.zip`, for the given architecture; then the distribution and the
/// version where given; and `latest=available` (the last build of each
/// version line) where asked.
pub open spec fn packages_query_spec(
    version: Option<Seq<char>>,
    distribution: Option<Seq<char>>,
    arch: Seq<char>,
    latest: bool,
) -> Seq<(Seq<char>, Seq<char>)> {
    let fixed = seq![
        param("package_type"@, "jdk"@),
        param("operating_system"@, "windows"@),
        param("architecture"@, arch),
        param("archive_type"@, "zip"@),
    ];
    let with_dist = match distribution {
        Some(d) => fixed.push(param("distribution"@, d)),
        None => fixed,
    };
    let with_version = match version {
        Some(v) => with_dist.push(param("version"@, v)),
        None => with_dist,
    };
    if latest {
        with_version.push(param("latest"@, "available"@))
    } else {
        with_version
    }
}

/// What the `/packages` query asks for: always JDKs for Windows, as `.zip`,
/// for the architecture; filtered by distribution exactly when one is given
/// and by version exactly when one is given, each whatever the other is
/// (so `list --remote --distribution zulu` asks for zulu only); and the
/// latest build of each version line exactly when asked.
pub proof fn lemma_query_filters(
    version: Option<Seq<char>>,
    distribution: Option<Seq<char>>,
    arch: Seq<char>,
    latest: bool,
)
    ensures
        ({
            let q = packages_query_spec(version, distribution, arch, latest);
            &&& q.contains(("package_type"@, "jdk"@))
            &&& q.contains(("operating_system"@, "windows"@))
            &&& q.contains(("architecture"@, arch))
            &&& q.contains(("archive_type"@, "zip"@))
            &&& (distribution matches Some(d) ==> q.contains(("distribution"@, d)))
            &&& (distribution is None ==> forall|k: int|
                0 <= k < q.len() ==> (#[trigger] q[k]).0 != "distribution"@)
            &&& (version matches Some(v) ==> q.contains(("version"@, v)))
            &&& (version is None ==> forall|k: int| 0 <= k < q.len() ==> (#[trigger] q[k]).0 != "version"@)
            &&& (latest <==> q.contains(("latest"@, "available"@)))
        }),
{
    reveal_strlit("package_type");
    reveal_strlit("operating_system");
    reveal_strlit("architecture");
    reveal_strlit("archive_type");
    reveal_strlit("distribution");
    reveal_strlit("version");
    reveal_strlit("latest");
    let fixed = seq![
        param("package_type"@, "jdk"@),
        param("operating_system"@, "windows"@),
        param("architecture"@, arch),
        param("archive_type"@, "zip"@),
    ];
    let with_dist = match distribution {
        Some(d) => fixed.push(param("distribution"@, d)),
        None => fixed,
    };
    let with_version = match version {
        Some(v) => with_dist.push(param("version"@, v)),
        None => with_dist,
    };
    let q = packages_query_spec(version, distribution, arch, latest);
    assert(q.len() >= 4);
    assert(q[0] == fixed[0] && q[1] == fixed[1] && q[2] == fixed[2] && q[3] == fixed[3]);
    assert(("package_type"@, "jdk"@) == q[0]);
    assert(("operating_system"@, "windows"@) == q[1]);
    assert(("architecture"@, arch) == q[2]);
    assert(("archive_type"@, "zip"@) == q[3]);
    if let Some(d) = distribution {
        assert(q[4] == ("distribution"@, d));
    }
    if let Some(v) = version {
        assert(with_version[with_version.len() - 1] == ("version"@, v));
        assert(q[with_version.len() - 1] == with_version[with_version.len() - 1]);
    }
    assert("latest"@ != "package_type"@ && "latest"@ != "operating_system"@ && "latest"@
        != "architecture"@ && "latest"@ != "archive_type"@ && "latest"@ != "distribution"@
        && "latest"@ != "version"@) by {
        assert("latest"@[0] != "package_type"@[0]);
        assert("latest"@[0] != "operating_system"@[0]);
        assert("latest"@.len() != "architecture"@.len());
        assert("latest"@.len() != "archive_type"@.len());
        assert("latest"@[0] != "distribution"@[0]);
        assert("latest"@[0] != "version"@[0]);
    }
    assert("distribution"@ != "package_type"@ && "distribution"@ != "operating_system"@
        && "distribution"@ != "architecture"@ && "distribution"@ != "archive_type"@
        && "distribution"@ != "version"@ && "distribution"@ != "latest"@) by {
        assert("distribution"@[0] != "package_type"@[0]);
        assert("distribution"@[0] != "operating_system"@[0]);
        assert("distribution"@[0] != "architecture"@[0]);
        assert("distribution"@[0] != "archive_type"@[0]);
        assert("distribution"@[0] != "version"@[0]);
    }
    assert("version"@ != "package_type"@ && "version"@ != "operating_system"@ && "version"@
        != "architecture"@ && "version"@ != "archive_type"@ && "version"@ != "latest"@) by {
        assert("version"@[0] != "package_type"@[0]);
        assert("version"@[0] != "operating_system"@[0]);
        assert("version"@[0] != "architecture"@[0]);
        assert("version"@[0] != "archive_type"@[0]);
    }
    if latest {
        assert(q[q.len() - 1] == ("latest"@, "available"@));
    } else {
        assert(q == with_version);
        assert forall|k: int| 0 <= k < q.len() implies (#[trigger] q[k]).0 != "latest"@ by {}
    }
}

/// The text of query parameters.
pub open spec fn params_view(p: Seq<(String, String)>) -> Seq<(Seq<char>, Seq<char>)> {
    p.map_values(|x: (String, String)| (x.0@, x.1@))
}

/// The optional text of an optional string.
pub open spec fn opt_str(o: Option<&str>) -> Option<Seq<char>> {
    match o {
        Some(s) => Some(s@),
        None => None,
    }
}

fn push_param(v: &mut Vec<(String, String)>, name: &str, value: &str)
    ensures
        params_view(final(v)@) == params_view(old(v)@).push((name@, value@)),
{
    let ghost before = v@;
    v.push((String::from_str(name), String::from_str(value)));
    assert(params_view(v@) =~= params_view(before).push((name@, value@)));
}

/// The parameters of the `/packages` query.
pub fn packages_query(
    version: Option<&str>,
    distribution: Option<&str>,
    arch: Arch,
    latest: bool,
) -> (r: Vec<(String, String)>)
    ensures
        params_view(r@) == packages_query_spec(
            opt_str(version),
            opt_str(distribution),
            arch.foojay_name(),
            latest,
        ),
        distribution matches Some(d) ==> params_view(r@).contains(("distribution"@, d@)),
        version matches Some(v) ==> params_view(r@).contains(("version"@, v@)),
{
    proof {
        lemma_query_filters(opt_str(version), opt_str(distribution), arch.foojay_name(), latest);
    }
    let mut q: Vec<(String, String)> = Vec::new();
    assert(params_view(q@) =~= Seq::<(Seq<char>, Seq<char>)>::empty());
    push_param(&mut q, "package_type", "jdk");
    push_param(&mut q, "operating_system", "windows");
    push_param(&mut q, "architecture", arch.foojay());
    push_param(&mut q, "archive_type", "zip");
    match distribution {
        Some(d) => push_param(&mut q, "distribution", d),
        None => {},
    }
    match version {
        Some(v) => push_param(&mut q, "version", v),
        None => {},
    }
    if latest {
        push_param(&mut q, "latest", "available");
    }
    proof {
        if let Some(d) = distribution {
            assert(opt_str(distribution) == Some(d@));
        }
        if let Some(v) = version {
            assert(opt_str(version) == Some(v@));
        }
    }
    q
}

// ---------------------------------------------------------------------------
// What comes back.
// ---------------------------------------------------------------------------

/// The packages for `list --remote`, sorted by ascending version; packages
/// of equal version keep foojay's order.
pub fn list_remote(pkgs: Vec<Package>) -> (r: Vec<Package>)
    ensures
        view_seq(r@).to_multiset() == view_seq(pkgs@).to_multiset(),
        is_sorted::<Package>(view_seq(r@)),
        is_stable_permutation::<Package>(view_seq(r@), view_seq(pkgs@)),
{
    sort(pkgs)
}

/// No build matched the request.
pub struct NoBuild {
    pub distribution: String,
    pub version: String,
    pub arch: Arch,
}

/// The message for a request that no build matches: which distribution,
/// version and architecture were asked for, and how to see what exists.
pub open spec fn no_build_text(distribution: Seq<char>, version: Seq<char>, arch: Seq<char>) -> Seq<
    char,
> {
    "no build of '"@ + distribution + "' "@ + version + " for Windows/"@ + arch
        + " (.zip) on foojay.\nCheck versions with: jdkenv list --remote --distribution "@
        + distribution
}

impl NoBuild {
    /// The error message.
    pub fn message(&self) -> (r: String)
        ensures
            r@ == no_build_text(self.distribution@, self.version@, self.arch.foojay_name()),
    {
        let mut r = String::from_str("no build of '");
        r.append(self.distribution.as_str());
        r.append("' ");
        r.append(self.version.as_str());
        r.append(" for Windows/");
        r.append(self.arch.foojay());
        r.append(" (.zip) on foojay.\nCheck versions with: jdkenv list --remote --distribution ");
        r.append(self.distribution.as_str());
        r
    }
}

/// The package to install for `version` of `distribution`: the most recent
/// build among those foojay returned (of equal most recent ones, the last);
/// an error where foojay returned none.
pub fn resolve(pkgs: Vec<Package>, version: &str, distribution: &str, arch: Arch) -> (r: Result<
    Package,
    NoBuild,
>)
    ensures
        pkgs@.len() == 0 <==> r is Err,
        r matches Err(e) ==> e.distribution@ == distribution@ && e.version@ == version@ && e.arch
            == arch,
        r matches Ok(p) ==> exists|i: int|
            {
                &&& 0 <= i < pkgs@.len()
                &&& p@ == #[trigger] pkgs@[i]@
                &&& forall|j: int|
                    0 <= j < pkgs@.len() ==> !key_lt(
                        spec_version_key(p.java_version@),
                        spec_version_key(#[trigger] pkgs@[j].java_version@),
                    )
                &&& forall|j: int|
                    i < j < pkgs@.len() ==> key_lt(
                        spec_version_key(#[trigger] pkgs@[j].java_version@),
                        spec_version_key(p.java_version@),
                    )
            },
{
    let mut v = pkgs;
    if v.len() == 0 {
        return Err(
            NoBuild {
                distribution: String::from_str(distribution),
                version: String::from_str(version),
                arch,
            },
        );
    }
    let ghost s = v@;
    let mut best: usize = 0;
    let mut best_key = version_key(v[0].java_version.as_str());
    proof {
        lemma_key_lt_irreflexive(best_key@);
    }
    let mut i: usize = 1;
    while i < v.len()
        invariant
            v@ == s,
            1 <= i <= v.len(),
            best < i,
            best_key@ == spec_version_key(s[best as int].java_version@),
            forall|k: int|
                0 <= k < i ==> !key_lt(best_key@, spec_version_key(#[trigger] s[k].java_version@)),
            forall|k: int|
                best < k < i ==> key_lt(spec_version_key(#[trigger] s[k].java_version@), best_key@),
        decreases v.len() - i,
    {
        let k = version_key(v[i].java_version.as_str());
        if !key_less(&k, &best_key) {
            proof {
                assert forall|m: int| 0 <= m < i + 1 implies !key_lt(
                    k@,
                    spec_version_key(#[trigger] s[m].java_version@),
                ) by {
                    if m < i {
                        lemma_key_lt_total(k@, best_key@);
                        if key_lt(k@, spec_version_key(s[m].java_version@)) && key_lt(best_key@, k@) {
                            lemma_key_lt_transitive(best_key@, k@, spec_version_key(s[m].java_version@));
                        }
                    } else {
                        lemma_key_lt_irreflexive(k@);
                    }
                }
            }
            best = i;
            best_key = k;
        } else {
            proof {
                if key_lt(best_key@, k@) {
                    lemma_key_lt_transitive(k@, best_key@, k@);
                    lemma_key_lt_irreflexive(k@);
                }
            }
        }
        i += 1;
    }
    let p = v.remove(best);
    assert(p == s[best as int]);
    assert(p@ == pkgs@[best as int]@);
    Ok(p)
}

// ---------------------------------------------------------------------------
// Remote listing grouped by distribution.
// ---------------------------------------------------------------------------

/// The versions available from one distribution.
pub struct RemoteListing {
    pub distribution: String,
    pub versions: Vec<String>,
}

/// The distinct distributions of `pkgs`, in order of first appearance.
pub open spec fn distributions(pkgs: Seq<PackageView>) -> Seq<Seq<char>>
    decreases pkgs.len(),
{
    if pkgs.len() == 0 {
        Seq::<Seq<char>>::empty()
    } else {
        let rest = distributions(pkgs.drop_last());
        if rest.contains(pkgs.last().distribution) {
            rest
        } else {
            rest.push(pkgs.last().distribution)
        }
    }
}

/// The Java versions of the packages of distribution `d`, in order.
pub open spec fn versions_of(pkgs: Seq<PackageView>, d: Seq<char>) -> Seq<Seq<char>>
    decreases pkgs.len(),
{
    if pkgs.len() == 0 {
        Seq::<Seq<char>>::empty()
    } else {
        let rest = versions_of(pkgs.drop_last(), d);
        if pkgs.last().distribution == d {
            rest.push(pkgs.last().java_version)
        } else {
            rest
        }
    }
}

proof fn lemma_versions_of_absent(pkgs: Seq<PackageView>, d: Seq<char>)
    requires
        !distributions(pkgs).contains(d),
    ensures
        versions_of(pkgs, d) == Seq::<Seq<char>>::empty(),
    decreases pkgs.len(),
{
    if pkgs.len() > 0 {
        let rest = distributions(pkgs.drop_last());
        assert(!rest.contains(d)) by {
            if rest.contains(d) {
                let k = choose|k: int| 0 <= k < rest.len() && #[trigger] rest[k] == d;
                assert(distributions(pkgs)[k] == d);
            }
        }
        lemma_versions_of_absent(pkgs.drop_last(), d);
        if pkgs.last().distribution == d {
            assert(distributions(pkgs)[rest.len() as int] == d);
        }
    }
}

/// Groups packages by distribution: one listing per distribution, in order
/// of first appearance, each with the Java versions of that distribution's
/// packages in their order (ascending, when the packages come sorted).
pub fn group_by_distribution(pkgs: &Vec<Package>) -> (r: Vec<RemoteListing>)
    ensures
        r@.len() == distributions(view_seq(pkgs@)).len(),
        forall|k: int|
            0 <= k < r@.len() ==> {
                &&& (#[trigger] r@[k]).distribution@ == distributions(view_seq(pkgs@))[k]
                &&& r@[k].versions@.map_values(|x: String| x@) == versions_of(
                    view_seq(pkgs@),
                    r@[k].distribution@,
                )
            },
{
    let ghost s = view_seq(pkgs@);
    let mut out: Vec<RemoteListing> = Vec::new();
    let mut i: usize = 0;
    while i < pkgs.len()
        invariant
            i <= pkgs.len(),
            s == view_seq(pkgs@),
            out@.len() == distributions(s.take(i as int)).len(),
            forall|k: int|
                0 <= k < out@.len() ==> {
                    &&& (#[trigger] out@[k]).distribution@ == distributions(s.take(i as int))[k]
                    &&& out@[k].versions@.map_values(|x: String| x@) == versions_of(
                        s.take(i as int),
                        out@[k].distribution@,
                    )
                },
        decreases pkgs.len() - i,
    {
        let ghost pre = s.take(i as int);
        let ghost post = s.take(i + 1);
        let ghost pv = s[i as int];
        proof {
            assert(post.drop_last() == pre);
            assert(post.last() == pv);
            assert(pv == pkgs@[i as int]@);
        }
        let d = chars_of(pkgs[i].distribution.as_str());
        let mut m: usize = 0;
        while m < out.len() && !chars_eq(&chars_of(out[m].distribution.as_str()), &d)
            invariant
                m <= out@.len(),
                forall|k: int| 0 <= k < m ==> (#[trigger] out@[k]).distribution@ != d@,
            decreases out.len() - m,
        {
            m += 1;
        }
        let ghost old_out = out@;
        let version = pkgs[i].java_version.clone();
        if m < out.len() {
            let mut listing = out.remove(m);
            let ghost lv = listing.versions@;
            listing.versions.push(version);
            out.insert(m, listing);
            proof {
                let dd = old_out[m as int].distribution@;
                assert(dd == pv.distribution);
                assert(distributions(pre).contains(pv.distribution)) by {
                    assert(distributions(pre)[m as int] == dd);
                }
                assert(distributions(post) == distributions(pre));
                assert forall|k: int| 0 <= k < out@.len() implies {
                    &&& (#[trigger] out@[k]).distribution@ == distributions(post)[k]
                    &&& out@[k].versions@.map_values(|x: String| x@) == versions_of(
                        post,
                        out@[k].distribution@,
                    )
                } by {
                    if k == m {
                        assert(out@[k].versions@ == lv.push(version));
                        assert(out@[k].versions@.map_values(|x: String| x@) =~= lv.map_values(
                            |x: String| x@,
                        ).push(version@));
                    } else {
                        assert(out@[k] == old_out[k]);
                        assert(old_out[k].distribution@ != dd) by {
                            if k < m {
                            } else {
                                assert(distributions(pre)[k] != distributions(pre)[m as int])
                                    by {
                                    lemma_distributions_distinct(pre);
                                }
                            }
                        }
                    }
                }
            }
        } else {
            let listing = RemoteListing {
                distribution: pkgs[i].distribution.clone(),
                versions: vec![version],
            };
            out.push(listing);
            proof {
                assert(!distributions(pre).contains(pv.distribution)) by {
                    if distributions(pre).contains(pv.distribution) {
                        let k = choose|k: int|
                            0 <= k < distributions(pre).len() && distributions(pre)[k]
                                == pv.distribution;
                        assert(old_out[k].distribution@ == pv.distribution);
                    }
                }
                lemma_versions_of_absent(pre, pv.distribution);
                assert(distributions(post) == distributions(pre).push(pv.distribution));
                assert forall|k: int| 0 <= k < out@.len() implies {
                    &&& (#[trigger] out@[k]).distribution@ == distributions(post)[k]
                    &&& out@[k].versions@.map_values(|x: String| x@) == versions_of(
                        post,
                        out@[k].distribution@,
                    )
                } by {
                    if k == old_out.len() {
                        assert(out@[k].versions@.map_values(|x: String| x@) =~= seq![version@]);
                        assert(Seq::<Seq<char>>::empty().push(version@) =~= seq![version@]);
                    } else {
                        assert(out@[k] == old_out[k]);
                        assert(old_out[k].distribution@ != pv.distribution);
                    }
                }
            }
        }
        i += 1;
    }
    assert(s.take(pkgs.len() as int) == s);
    out
}

/// The distributions of `distributions` are distinct.
proof fn lemma_distributions_distinct(pkgs: Seq<PackageView>)
    ensures
        forall|a: int, b: int|
            0 <= a < b < distributions(pkgs).len() ==> #[trigger] distributions(pkgs)[a]
                != #[trigger] distributions(pkgs)[b],
    decreases pkgs.len(),
{
    if pkgs.len() > 0 {
        lemma_distributions_distinct(pkgs.drop_last());
        let rest = distributions(pkgs.drop_last());
        if !rest.contains(pkgs.last().distribution) {
            assert forall|a: int, b: int|
                0 <= a < b < distributions(pkgs).len() implies #[trigger] distributions(pkgs)[a]
                != #[trigger] distributions(pkgs)[b] by {
                if b == rest.len() {
                    assert(distributions(pkgs)[a] == rest[a]);
                } else {
                    assert(distributions(pkgs)[a] == rest[a]);
                    assert(distributions(pkgs)[b] == rest[b]);
                }
            }
        }
    }
}

// ---------------------------------------------------------------------------
// Download and installation.
// ---------------------------------------------------------------------------

/// The total size that a `Content-Length` header announces: its value where
/// it parses as a `u64`, zero where it is absent or does not.
pub fn content_length(header: Option<&str>) -> (r: u64)
    ensures
        r == match header {
            Some(h) => match parse_u64(h@) {
                Some(n) => n,
                None => 0,
            },
            None => 0,
        },
{
    match header {
        Some(h) => {
            let cs = chars_of(h);
            match parse_u64_chars(&cs) {
                Some(n) => n,
                None => 0,
            }
        },
        None => 0,
    }
}

/// Where a package is downloaded and extracted before it is moved into
/// place: `.download-<stem>.zip` and `.stage-<stem>` inside `versions\` (the
/// same volume as the destination, so the final rename never crosses drives),
/// where `stem` is the destination's folder name (`jdk` if it has none).
pub open spec fn staging_spec(versions_dir: Seq<char>, stem: Option<Seq<char>>) -> (
    Seq<char>,
    Seq<char>,
) {
    let s = match stem {
        Some(x) => x,
        None => "jdk"@,
    };
    (
        join_path(versions_dir, ".download-"@ + s + ".zip"@),
        join_path(versions_dir, ".stage-"@ + s),
    )
}

/// The download file and the staging folder of an installation.
pub fn staging_paths(versions_dir: &str, stem: Option<&str>) -> (r: (String, String))
    ensures
        (r.0@, r.1@) == staging_spec(versions_dir@, opt_str(stem)),
{
    let s: &str = match stem {
        Some(x) => x,
        None => "jdk",
    };
    let mut zip_name = String::from_str(".download-");
    zip_name.append(s);
    zip_name.append(".zip");
    let mut stage_name = String::from_str(".stage-");
    stage_name.append(s);
    let zip_path = join_path_exec(versions_dir, zip_name.as_str());
    let stage_dir = join_path_exec(versions_dir, stage_name.as_str());
    (zip_path, stage_dir)
}

} // verus!
