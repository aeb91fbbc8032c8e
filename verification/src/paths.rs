//! The `%USERPROFILE%\.jdkenv\` tree, the installed JDKs under `versions\`,
//! and how a query selects one of them.
//!
//! `current` is the pivot of the design: PATH and JAVA_HOME always point at
//! `current` (never at a concrete version), so switching JDK only re-points
//! that junction.

use vstd::prelude::*;

use crate::sort::{is_sorted, is_stable_permutation, lemma_view_seq_remove, sort, view_seq, Ordered};
use crate::text::{
    chars_eq, chars_of, join, lemma_split_nonempty, lowercase, lowercase_chars, position_of, split,
    string_of, strip_prefix_all, sub_chars, trim_end_char, trim_end_matches_char,
    trim_start_matches,
};
use crate::version::{
    key_less, key_lt, lemma_key_lt_irreflexive, lemma_key_lt_total, lemma_key_lt_transitive,
    lemma_split_first, spec_version_key, version_key, spec_version_matches, version_matches,
};

verus! {

// ---------------------------------------------------------------------------
// Paths as text.
// ---------------------------------------------------------------------------

/// A path separator on Windows.
pub open spec fn is_separator(c: char) -> bool {
    c == '\\' || c == '/'
}

/// `base` is only a drive, such as `C:`.
pub open spec fn is_bare_drive(base: Seq<char>) -> bool {
    base.len() == 2 && (('a' <= base[0] <= 'z') || ('A' <= base[0] <= 'Z')) && base[1] == ':'
}

/// `base` joined with the relative path `name`, as `PathBuf::join` does on
/// Windows: a `\` goes between them unless `base` is empty, already ends
/// with a separator, or is only a drive (`C:` joined with `x` is `C:x`).
pub open spec fn join_path(base: Seq<char>, name: Seq<char>) -> Seq<char> {
    if base.len() == 0 || is_separator(base.last()) || is_bare_drive(base) {
        base + name
    } else {
        base.push('\\') + name
    }
}

/// `base` joined with the relative path `name`.
pub fn join_path_exec(base: &str, name: &str) -> (r: String)
    ensures
        r@ == join_path(base@, name@),
{
    let b = chars_of(base);
    let mut r = string_of(&b);
    let bare_drive = b.len() == 2 && (('a' <= b[0] && b[0] <= 'z') || ('A' <= b[0] && b[0] <= 'Z'))
        && b[1] == ':';
    if b.len() > 0 && b[b.len() - 1] != '\\' && b[b.len() - 1] != '/' && !bare_drive {
        crate::text::push_char(&mut r, '\\');
    }
    r.append(name);
    r
}

/// The prefix that `canonicalize` puts in front of a verbatim path.
pub open spec fn verbatim_prefix() -> Seq<char> {
    seq!['\\', '\\', '?', '\\']
}

/// How two canonicalized paths are compared: without the verbatim prefix
/// `\\?\` (every leading copy), without trailing `\`, and in lower case.
pub open spec fn canonical_form(p: Seq<char>) -> Seq<char> {
    lowercase(trim_end_char(strip_prefix_all(p, verbatim_prefix()), '\\'))
}

/// A canonicalized path compares the same with or without the verbatim
/// prefix `\\?\` that `canonicalize` puts in front.
pub proof fn lemma_canonical_form_ignores_verbatim_prefix(p: Seq<char>)
    ensures
        canonical_form(verbatim_prefix() + p) == canonical_form(p),
        canonical_form(verbatim_prefix() + p) == lowercase(
            trim_end_char(strip_prefix_all(p, verbatim_prefix()), '\\'),
        ),
{
    let v = verbatim_prefix();
    let s = v + p;
    assert(s.take(v.len() as int) =~= v);
    assert(s.skip(v.len() as int) =~= p);
}

/// The comparison form of an already canonicalized path.
pub fn canonical_form_exec(p: &str) -> (r: Vec<char>)
    ensures
        r@ == canonical_form(p@),
{
    let cs = chars_of(p);
    let pat: Vec<char> = vec!['\\', '\\', '?', '\\'];
    assert(pat@ == verbatim_prefix());
    let a = trim_start_matches(&cs, &pat);
    let b = trim_end_matches_char(&a, '\\');
    lowercase_chars(&b)
}

/// Whether two canonicalized paths name the same place (the comparison of
/// `same_path`, after the file system has canonicalized both).
pub fn same_canonical(a: &str, b: &str) -> (r: bool)
    ensures
        r == (canonical_form(a@) == canonical_form(b@)),
{
    let x = canonical_form_exec(a);
    let y = canonical_form_exec(b);
    chars_eq(&x, &y)
}

/// Whether an installed JDK is the active one: the `current` junction exists
/// and its target (canonicalized) is the JDK's folder (canonicalized).
pub fn is_active(current_target: Option<&str>, jdk_path: &str) -> (r: bool)
    ensures
        r == (current_target matches Some(t) && canonical_form(t@) == canonical_form(jdk_path@)),
{
    match current_target {
        Some(t) => same_canonical(t, jdk_path),
        None => false,
    }
}

/// A path in lower case without trailing `\`.
pub open spec fn spec_lower_path(p: Seq<char>) -> Seq<char> {
    lowercase(trim_end_char(p, '\\'))
}

/// Paths compare ignoring case and trailing `\`, and nothing else: the
/// comparison form of a path is the lower case of its whole text once the
/// trailing `\` are taken off (so `...\current\bin` is not compared as
/// `...\current`); adding a trailing `\` never changes it; and two paths
/// compare equal exactly when their texts without trailing `\` have the same
/// lower case.
pub proof fn lemma_lower_path_ignores_case_and_trailing_separators(p: Seq<char>, q: Seq<char>)
    ensures
        spec_lower_path(p) == lowercase(trim_end_char(p, '\\')),
        spec_lower_path(p.push('\\')) == spec_lower_path(p),
        spec_lower_path(p) == spec_lower_path(q) <==> lowercase(trim_end_char(p, '\\'))
            == lowercase(trim_end_char(q, '\\')),
{
    assert(p.push('\\').drop_last() == p);
    assert(p.push('\\').last() == '\\');
}

/// A path in lower case without trailing `\`.
pub fn lower_path(p: &str) -> (r: String)
    ensures
        r@ == spec_lower_path(p@),
        r@ == lowercase(trim_end_char(p@, '\\')),
{
    proof {
        lemma_lower_path_ignores_case_and_trailing_separators(p@, p@);
    }
    let cs = chars_of(p);
    let t = trim_end_matches_char(&cs, '\\');
    let l = lowercase_chars(&t);
    string_of(&l)
}

// ---------------------------------------------------------------------------
// Layout.
// ---------------------------------------------------------------------------

/// The canonical paths of the `.jdkenv` tree.
pub struct Layout {
    pub root: String,
    pub bin: String,
    pub versions: String,
    pub current: String,
}

impl Layout {
    /// The tree under a user profile directory.
    pub open spec fn spec_for(self, profile: Seq<char>) -> bool {
        &&& self.root@ == join_path(profile, ".jdkenv"@)
        &&& self.bin@ == join_path(self.root@, "bin"@)
        &&& self.versions@ == join_path(self.root@, "versions"@)
        &&& self.current@ == join_path(self.root@, "current"@)
    }

    /// The layout under the profile directory `profile` (`%USERPROFILE%`).
    pub fn from_profile(profile: &str) -> (l: Layout)
        ensures
            l.spec_for(profile@),
    {
        let root = join_path_exec(profile, ".jdkenv");
        let bin = join_path_exec(root.as_str(), "bin");
        let versions = join_path_exec(root.as_str(), "versions");
        let current = join_path_exec(root.as_str(), "current");
        Layout { root, bin, versions, current }
    }

    /// `current\bin`, the directory that goes in front of PATH.
    pub fn current_bin(&self) -> (r: String)
        ensures
            r@ == join_path(self.current@, "bin"@),
    {
        join_path_exec(self.current.as_str(), "bin")
    }
}

// ---------------------------------------------------------------------------
// Installed JDKs.
// ---------------------------------------------------------------------------

/// An installed JDK: a folder `<distribution>-<version>` under `versions\`.
pub struct InstalledJdk {
    /// Whole folder name, e.g. `temurin-21.0.5`.
    pub dir_name: String,
    pub distribution: String,
    pub version: String,
    pub path: String,
}

/// What an installed JDK is, as text.
pub struct JdkView {
    pub dir_name: Seq<char>,
    pub distribution: Seq<char>,
    pub version: Seq<char>,
    pub path: Seq<char>,
}

impl View for InstalledJdk {
    type V = JdkView;

    open spec fn view(&self) -> JdkView {
        JdkView {
            dir_name: self.dir_name@,
            distribution: self.distribution@,
            version: self.version@,
            path: self.path@,
        }
    }
}

/// `str::split_once(c)`: the text before and after the first `c`.
pub open spec fn split_once(s: Seq<char>, c: char) -> Option<(Seq<char>, Seq<char>)> {
    let head = split(s, c)[0];
    if split(s, c).len() > 1 {
        Some((head, s.skip(head.len() as int + 1)))
    } else {
        None
    }
}

/// The JDK that a folder of `versions\` holds, if its name has the form
/// `<distribution>-<version>`: the first `-` separates the two (foojay names
/// distributions with `_`, never `-`), neither may be empty, and folders whose
/// name starts with `.` (staging and downloads) are not JDKs.
pub open spec fn parse_jdk_dir(path: Seq<char>, name: Seq<char>) -> Option<JdkView> {
    if name.len() > 0 && name[0] == '.' {
        None
    } else {
        match split_once(name, '-') {
            Some((d, v)) => if d.len() == 0 || v.len() == 0 {
                None
            } else {
                Some(JdkView { dir_name: name, distribution: d, version: v, path })
            },
            None => None,
        }
    }
}

impl InstalledJdk {
    /// The JDK in the folder at `path`, whose name is `dir_name`; `None` where
    /// the name is not of the form `<distribution>-<version>`.
    pub fn from_dir(path: String, dir_name: String) -> (r: Option<InstalledJdk>)
        ensures
            match r {
                Some(j) => parse_jdk_dir(path@, dir_name@) == Some(j@),
                None => parse_jdk_dir(path@, dir_name@).is_none(),
            },
    {
        let cs = chars_of(dir_name.as_str());
        if cs.len() > 0 && cs[0] == '.' {
            return None;
        }
        let j = position_of(&cs, '-');
        proof {
            lemma_split_first(cs@, '-', j as int);
        }
        if j == cs.len() {
            return None;
        }
        let d = sub_chars(&cs, 0, j);
        let v = sub_chars(&cs, j + 1, cs.len());
        assert(d@ == cs@.take(j as int));
        assert(v@ == cs@.skip(j + 1));
        if d.len() == 0 || v.len() == 0 {
            return None;
        }
        let r = InstalledJdk {
            distribution: string_of(&d),
            version: string_of(&v),
            path,
            dir_name,
        };
        proof {
            let sp = split(cs@, '-');
            assert(sp[0] == cs@.take(j as int));
            lemma_split_nonempty(cs@, '-');
            assert(sp.len() > 1);
            assert(sp[0].len() == j);
            assert(split_once(dir_name@, '-') == Some((d@, v@)));
        }
        Some(r)
    }

    /// The ordering key of this JDK's version.
    pub fn version_key(&self) -> (r: Vec<u64>)
        ensures
            r@ == spec_version_key(self.version@),
    {
        version_key(self.version.as_str())
    }
}

/// `String` order: lexicographic by character (the byte order of UTF-8).
pub open spec fn text_lt(a: Seq<char>, b: Seq<char>) -> bool
    decreases a.len(),
{
    if a.len() == 0 {
        b.len() > 0
    } else if b.len() == 0 {
        false
    } else if a[0] != b[0] {
        a[0] < b[0]
    } else {
        text_lt(a.drop_first(), b.drop_first())
    }
}

proof fn lemma_text_lt_irreflexive(a: Seq<char>)
    ensures
        !text_lt(a, a),
    decreases a.len(),
{
    if a.len() > 0 {
        lemma_text_lt_irreflexive(a.drop_first());
    }
}

proof fn lemma_text_lt_transitive(a: Seq<char>, b: Seq<char>, c: Seq<char>)
    requires
        text_lt(a, b),
        text_lt(b, c),
    ensures
        text_lt(a, c),
    decreases a.len(),
{
    if a.len() > 0 && b.len() > 0 && c.len() > 0 && a[0] == b[0] && b[0] == c[0] {
        lemma_text_lt_transitive(a.drop_first(), b.drop_first(), c.drop_first());
    }
}

proof fn lemma_text_lt_total(a: Seq<char>, b: Seq<char>)
    ensures
        text_lt(a, b) || text_lt(b, a) || a == b,
    decreases a.len(),
{
    if a.len() > 0 && b.len() > 0 && a[0] == b[0] {
        lemma_text_lt_total(a.drop_first(), b.drop_first());
        if a.drop_first() == b.drop_first() {
            assert(a == seq![a[0]] + a.drop_first());
            assert(b == seq![b[0]] + b.drop_first());
        }
    } else if a.len() == 0 && b.len() == 0 {
        assert(a == b);
    }
}

/// Whether `a` orders strictly before `b` as text.
fn text_less(a: &[char], b: &[char]) -> (r: bool)
    ensures
        r == text_lt(a@, b@),
{
    let mut i: usize = 0;
    assert(a@.skip(0) == a@);
    assert(b@.skip(0) == b@);
    while i < a.len() && i < b.len() && a[i] == b[i]
        invariant
            i <= a.len(),
            i <= b.len(),
            text_lt(a@, b@) == text_lt(a@.skip(i as int), b@.skip(i as int)),
        decreases a.len() - i,
    {
        proof {
            assert(a@.skip(i as int).drop_first() == a@.skip(i + 1));
            assert(b@.skip(i as int).drop_first() == b@.skip(i + 1));
        }
        i += 1;
    }
    proof {
        if i < a.len() {
            assert(a@.skip(i as int)[0] == a@[i as int]);
        }
        if i < b.len() {
            assert(b@.skip(i as int)[0] == b@[i as int]);
        }
    }
    if i == a.len() {
        i < b.len()
    } else if i == b.len() {
        false
    } else {
        a[i] < b[i]
    }
}

/// Installed JDKs order by distribution name, then by version key.
pub open spec fn jdk_before(a: JdkView, b: JdkView) -> bool {
    text_lt(a.distribution, b.distribution) || (a.distribution == b.distribution && key_lt(
        spec_version_key(a.version),
        spec_version_key(b.version),
    ))
}

impl Ordered for InstalledJdk {
    open spec fn before(a: JdkView, b: JdkView) -> bool {
        jdk_before(a, b)
    }

    proof fn lemma_before_irreflexive(a: JdkView) {
        lemma_text_lt_irreflexive(a.distribution);
        lemma_key_lt_irreflexive(spec_version_key(a.version));
    }

    proof fn lemma_before_transitive(a: JdkView, b: JdkView, c: JdkView) {
        let (da, db, dc) = (a.distribution, b.distribution, c.distribution);
        if text_lt(da, db) && text_lt(db, dc) {
            lemma_text_lt_transitive(da, db, dc);
        } else if text_lt(da, db) {
            assert(b.distribution == c.distribution);
        } else if text_lt(db, dc) {
            assert(a.distribution == b.distribution);
        } else {
            lemma_key_lt_transitive(spec_version_key(a.version), spec_version_key(b.version), spec_version_key(c.version));
        }
    }

    proof fn lemma_before_connected(a: JdkView, b: JdkView, c: JdkView) {
        let (da, db, dc) = (a.distribution, b.distribution, c.distribution);
        let (ka, kb, kc) = (
            spec_version_key(a.version),
            spec_version_key(b.version),
            spec_version_key(c.version),
        );
        lemma_text_lt_total(da, db);
        if text_lt(db, da) {
            if text_lt(da, dc) {
                lemma_text_lt_transitive(db, da, dc);
            }
        } else if da == db {
            if da == dc {
                lemma_key_lt_total(ka, kb);
                if key_lt(kb, ka) {
                    lemma_key_lt_transitive(kb, ka, kc);
                }
            }
        }
    }

    fn precedes(&self, other: &Self) -> (r: bool) {
        let a = chars_of(self.distribution.as_str());
        let b = chars_of(other.distribution.as_str());
        if text_less(&a, &b) {
            return true;
        }
        if !chars_eq(&a, &b) {
            return false;
        }
        let ka = self.version_key();
        let kb = other.version_key();
        key_less(&ka, &kb)
    }
}

/// The views of directory entries `(path, name)`.
pub open spec fn entry_views(entries: Seq<(String, String)>) -> Seq<(Seq<char>, Seq<char>)> {
    entries.map_values(|e: (String, String)| (e.0@, e.1@))
}

/// The JDKs that a list of directory entries holds, in order.
pub open spec fn parse_all(entries: Seq<(Seq<char>, Seq<char>)>) -> Seq<JdkView>
    decreases entries.len(),
{
    if entries.len() == 0 {
        Seq::<JdkView>::empty()
    } else {
        let rest = parse_all(entries.drop_last());
        match parse_jdk_dir(entries.last().0, entries.last().1) {
            Some(j) => rest.push(j),
            None => rest,
        }
    }
}

/// The optional distribution filter, as text.
pub open spec fn opt_view(d: Option<&str>) -> Option<Seq<char>> {
    match d {
        Some(s) => Some(s@),
        None => None,
    }
}

/// `query` (and the distribution filter, where there is one) selects `j`.
pub open spec fn selects(j: JdkView, query: Seq<char>, dist: Option<Seq<char>>) -> bool {
    &&& match dist {
        Some(d) => j.distribution == d,
        None => true,
    }
    &&& spec_version_matches(j.dir_name, j.version, query)
}

/// The JDKs of `s` that the query selects, in order.
pub open spec fn select_all(s: Seq<JdkView>, query: Seq<char>, dist: Option<Seq<char>>) -> Seq<
    JdkView,
>
    decreases s.len(),
{
    if s.len() == 0 {
        s
    } else {
        let rest = select_all(s.drop_last(), query, dist);
        if selects(s.last(), query, dist) {
            rest.push(s.last())
        } else {
            rest
        }
    }
}

/// Whether the query selects this JDK.
fn selects_exec(j: &InstalledJdk, query: &str, distribution: Option<&str>) -> (r: bool)
    ensures
        r == selects(j@, query@, opt_view(distribution)),
{
    let dist_ok = match distribution {
        Some(d) => {
            let a = chars_of(j.distribution.as_str());
            let b = chars_of(d);
            chars_eq(&a, &b)
        },
        None => true,
    };
    dist_ok && version_matches(j.dir_name.as_str(), j.version.as_str(), query)
}

impl Layout {
    /// The installed JDKs among the folders of `versions\` (each given as its
    /// path and its name), sorted by distribution and then by version; JDKs
    /// that tie keep the order of their folders.
    pub fn installed(entries: Vec<(String, String)>) -> (out: Vec<InstalledJdk>)
        ensures
            view_seq(out@).to_multiset() == parse_all(entry_views(entries@)).to_multiset(),
            is_sorted::<InstalledJdk>(view_seq(out@)),
            is_stable_permutation::<InstalledJdk>(view_seq(out@), parse_all(entry_views(entries@))),
    {
        let mut found: Vec<InstalledJdk> = Vec::new();
        let mut i: usize = 0;
        while i < entries.len()
            invariant
                i <= entries.len(),
                view_seq(found@) == parse_all(entry_views(entries@).take(i as int)),
            decreases entries.len() - i,
        {
            let path = entries[i].0.clone();
            let name = entries[i].1.clone();
            proof {
                let ev = entry_views(entries@);
                assert(ev.take(i + 1).drop_last() == ev.take(i as int));
                assert(ev.take(i + 1).last() == ev[i as int]);
            }
            match InstalledJdk::from_dir(path, name) {
                Some(j) => {
                    let ghost before = found@;
                    found.push(j);
                    assert(view_seq(found@) =~= view_seq(before).push(j@));
                },
                None => {},
            }
            i += 1;
        }
        assert(entry_views(entries@).take(entries.len() as int) == entry_views(entries@));
        sort(found)
    }

    /// The installed JDK that `query` selects (`21`, `21.0.5` or the whole
    /// folder name `temurin-21.0.5`), optionally only of one distribution.
    /// Where several are selected, the one with the highest version; of equal
    /// highest versions, the last.
    pub fn find_installed(
        installed: Vec<InstalledJdk>,
        query: &str,
        distribution: Option<&str>,
    ) -> (r: Option<InstalledJdk>)
        ensures
            r.is_none() <==> forall|i: int|
                0 <= i < installed@.len() ==> !selects(
                    #[trigger] installed@[i]@,
                    query@,
                    opt_view(distribution),
                ),
            r matches Some(x) ==> exists|i: int|
                {
                    &&& 0 <= i < installed@.len()
                    &&& x@ == #[trigger] installed@[i]@
                    &&& selects(x@, query@, opt_view(distribution))
                    &&& forall|j: int|
                        0 <= j < installed@.len() && selects(
                            #[trigger] installed@[j]@,
                            query@,
                            opt_view(distribution),
                        ) ==> !key_lt(spec_version_key(x.version@), spec_version_key(installed@[j].version@))
                    &&& forall|j: int|
                        i < j < installed@.len() && selects(
                            #[trigger] installed@[j]@,
                            query@,
                            opt_view(distribution),
                        ) ==> key_lt(spec_version_key(installed@[j].version@), spec_version_key(x.version@))
                },
    {
        let mut v = installed;
        let ghost s = v@;
        let mut best: Option<usize> = None;
        let mut best_key: Vec<u64> = Vec::new();
        let mut i: usize = 0;
        while i < v.len()
            invariant
                v@ == s,
                i <= v.len(),
                best is None <==> forall|k: int|
                    0 <= k < i ==> !selects(#[trigger] s[k]@, query@, opt_view(distribution)),
                best matches Some(b) ==> {
                    &&& b < i
                    &&& selects(s[b as int]@, query@, opt_view(distribution))
                    &&& best_key@ == spec_version_key(s[b as int].version@)
                    &&& forall|k: int|
                        0 <= k < i && selects(#[trigger] s[k]@, query@, opt_view(distribution))
                            ==> !key_lt(best_key@, spec_version_key(s[k].version@))
                    &&& forall|k: int|
                        b < k < i && selects(#[trigger] s[k]@, query@, opt_view(distribution))
                            ==> key_lt(spec_version_key(s[k].version@), best_key@)
                },
            decreases v.len() - i,
        {
            if selects_exec(&v[i], query, distribution) {
                let k = v[i].version_key();
                let take = match best {
                    None => true,
                    Some(_) => !key_less(&k, &best_key),
                };
                if take {
                    proof {
                        if let Some(b) = best {
                            assert forall|m: int|
                                0 <= m < i + 1 && selects(
                                    #[trigger] s[m]@,
                                    query@,
                                    opt_view(distribution),
                                ) implies !key_lt(k@, spec_version_key(s[m].version@)) by {
                                if m < i {
                                    lemma_key_lt_total(k@, best_key@);
                                    if key_lt(k@, spec_version_key(s[m].version@)) {
                                        if key_lt(best_key@, k@) {
                                            lemma_key_lt_transitive(
                                                best_key@,
                                                k@,
                                                spec_version_key(s[m].version@),
                                            );
                                        }
                                    }
                                } else {
                                    lemma_key_lt_irreflexive(k@);
                                }
                            }
                        } else {
                            assert forall|m: int|
                                0 <= m < i + 1 && selects(
                                    #[trigger] s[m]@,
                                    query@,
                                    opt_view(distribution),
                                ) implies !key_lt(k@, spec_version_key(s[m].version@)) by {
                                if m == i {
                                    lemma_key_lt_irreflexive(k@);
                                }
                            }
                        }
                    }
                    best = Some(i);
                    best_key = k;
                } else {
                    proof {
                        if key_lt(best_key@, k@) {
                            lemma_key_lt_transitive(k@, best_key@, k@);
                            lemma_key_lt_irreflexive(k@);
                        }
                    }
                }
            }
            i += 1;
        }
        match best {
            None => None,
            Some(b) => {
                let x = v.remove(b);
                assert(x == s[b as int]);
                Some(x)
            },
        }
    }

    /// Every installed JDK that `query` selects, in order.
    pub fn find_matching(
        installed: Vec<InstalledJdk>,
        query: &str,
        distribution: Option<&str>,
    ) -> (r: Vec<InstalledJdk>)
        ensures
            view_seq(r@) == select_all(view_seq(installed@), query@, opt_view(distribution)),
    {
        let mut rest = installed;
        let ghost s = view_seq(rest@);
        let n = rest.len();
        let mut out: Vec<InstalledJdk> = Vec::new();
        let mut taken: usize = 0;
        assert(s.skip(0) == s);
        while rest.len() > 0
            invariant
                s.len() == n,
                taken + rest@.len() == n,
                view_seq(rest@) == s.skip(taken as int),
                view_seq(out@) == select_all(s.take(taken as int), query@, opt_view(distribution)),
            decreases rest.len(),
        {
            let ghost before_rest = rest@;
            let ghost before_out = out@;
            let j = rest.remove(0);
            proof {
                lemma_view_seq_remove(before_rest, 0);
                assert(s.take(taken + 1).drop_last() == s.take(taken as int));
                assert(s.take(taken + 1).last() == s[taken as int]);
                assert(s[taken as int] == view_seq(before_rest)[0]);
                assert(view_seq(rest@) =~= s.skip(taken + 1));
            }
            if selects_exec(&j, query, distribution) {
                out.push(j);
                assert(view_seq(out@) =~= view_seq(before_out).push(j@));
            }
            taken += 1;
        }
        assert(s.take(taken as int) == s);
        out
    }
}

/// Why a query did not settle on one installed JDK.
pub enum Selection {
    /// No installed JDK matches.
    NoMatch,
    /// Several match; their folder names, in order.
    Ambiguous(Vec<String>),
}

/// The one JDK among `matches`: none is an error, and so are several (the
/// user is asked to name a distribution or an exact version).
pub fn select_unique(matches: Vec<InstalledJdk>) -> (r: Result<InstalledJdk, Selection>)
    ensures
        matches@.len() == 0 <==> r matches Err(Selection::NoMatch),
        matches@.len() == 1 <==> r is Ok,
        r matches Ok(j) ==> j@ == matches@[0]@,
        r matches Err(Selection::Ambiguous(names)) ==> matches@.len() > 1 && names@.len()
            == matches@.len() && forall|k: int|
            0 <= k < names@.len() ==> #[trigger] names@[k]@ == matches@[k].dir_name@,
{
    let mut m = matches;
    if m.len() == 0 {
        return Err(Selection::NoMatch);
    }
    if m.len() == 1 {
        return Ok(m.remove(0));
    }
    let mut names: Vec<String> = Vec::new();
    let mut i: usize = 0;
    while i < m.len()
        invariant
            i <= m.len(),
            names@.len() == i,
            forall|k: int| 0 <= k < i ==> #[trigger] names@[k]@ == m@[k].dir_name@,
        decreases m.len() - i,
    {
        names.push(m[i].dir_name.clone());
        i += 1;
    }
    Err(Selection::Ambiguous(names))
}

/// The lines that list installed JDKs after a "not found" error.
pub open spec fn hint_lines(s: Seq<JdkView>) -> Seq<Seq<char>> {
    s.map_values(|j: JdkView| "  "@ + j.dir_name)
}

/// The hint that accompanies a "no installed version matches" error: the
/// installed JDKs, one per line, or how to install one.
pub open spec fn installed_hint_text(s: Seq<JdkView>) -> Seq<char> {
    if s.len() > 0 {
        "\nInstalled:\n"@ + join(hint_lines(s), '\n')
    } else {
        "\nNo JDKs installed. Install one with: jdkenv install <version> --distribution <dist>"@
    }
}

/// The hint that accompanies a "no installed version matches" error.
pub fn installed_hint(installed: &Vec<InstalledJdk>) -> (r: String)
    ensures
        r@ == installed_hint_text(view_seq(installed@)),
{
    if installed.len() == 0 {
        return String::from_str(
            "\nNo JDKs installed. Install one with: jdkenv install <version> --distribution <dist>",
        );
    }
    let mut r = String::from_str("\nInstalled:\n");
    let ghost head = r@;
    let ghost lines = hint_lines(view_seq(installed@));
    let mut i: usize = 0;
    while i < installed.len()
        invariant
            i <= installed.len(),
            lines == hint_lines(view_seq(installed@)),
            lines.len() == installed@.len(),
            head == "\nInstalled:\n"@,
            r@ == head + join(lines.take(i as int), '\n'),
        decreases installed.len() - i,
    {
        proof {
            crate::text::lemma_join_push(lines.take(i as int), lines[i as int], '\n');
            assert(lines.take(i + 1) == lines.take(i as int).push(lines[i as int]));
            assert(lines[i as int] == "  "@ + installed@[i as int].dir_name@);
        }
        if i > 0 {
            crate::text::push_char(&mut r, '\n');
        }
        r.append("  ");
        r.append(installed[i].dir_name.as_str());
        proof {
            if i > 0 {
                assert(r@ == head + join(lines.take(i as int), '\n').push('\n') + "  "@
                    + installed@[i as int].dir_name@);
            } else {
                assert(join(lines.take(0), '\n') == Seq::<char>::empty());
                assert(r@ == head + ("  "@ + installed@[i as int].dir_name@));
            }
        }
        i += 1;
    }
    assert(lines.take(installed.len() as int) == lines);
    r
}

} // verus!
