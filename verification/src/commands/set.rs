//! `jdkenv set <version>`: switch the JDK for THIS terminal session only.
//!
//! A child process cannot change its parent shell's environment, so `set`
//! prints the assignments and the shell evaluates them.

use vstd::prelude::*;

use crate::paths::canonical_form;
use crate::paths::same_canonical;
use crate::text::{
    chars_of, has_prefix, lowercase, lowercase_chars, replace_char, replace_chars, starts_with,
    string_of,
};

verus! {

/// Escapes a value for a PowerShell single-quoted string: every `'` doubled.
pub fn ps_quote(s: &str) -> (r: String)
    ensures
        r@ == replace_char(s@, '\'', seq!['\'', '\'']),
{
    let cs = chars_of(s);
    let rep: Vec<char> = vec!['\'', '\''];
    let q = replace_chars(&cs, '\'', &rep);
    string_of(&q)
}

/// An entry of the session PATH, with the form the file system canonicalized
/// it to (the entry itself where it could not).
pub struct PathEntry {
    pub path: String,
    pub canonical: String,
}

/// An entry of the session PATH stays unless it lies under `versions\` (a
/// version that an earlier `set` put there) or is the chosen version's `bin`.
pub open spec fn stays_in_session(
    path: Seq<char>,
    canonical: Seq<char>,
    versions_dir: Seq<char>,
    bin_canonical: Seq<char>,
) -> bool {
    !has_prefix(lowercase(path), lowercase(versions_dir)) && canonical_form(canonical)
        != canonical_form(bin_canonical)
}

/// The entries that stay, in order.
pub open spec fn session_kept(
    entries: Seq<PathEntry>,
    versions_dir: Seq<char>,
    bin_canonical: Seq<char>,
) -> Seq<Seq<char>>
    decreases entries.len(),
{
    if entries.len() == 0 {
        Seq::<Seq<char>>::empty()
    } else {
        let rest = session_kept(entries.drop_last(), versions_dir, bin_canonical);
        let e = entries.last();
        if stays_in_session(e.path@, e.canonical@, versions_dir, bin_canonical) {
            rest.push(e.path@)
        } else {
            rest
        }
    }
}

/// The entries that stay, themselves, in order.
pub open spec fn session_entries(
    entries: Seq<PathEntry>,
    versions_dir: Seq<char>,
    bin_canonical: Seq<char>,
) -> Seq<PathEntry>
    decreases entries.len(),
{
    if entries.len() == 0 {
        entries
    } else {
        let rest = session_entries(entries.drop_last(), versions_dir, bin_canonical);
        let e = entries.last();
        if stays_in_session(e.path@, e.canonical@, versions_dir, bin_canonical) {
            rest.push(e)
        } else {
            rest
        }
    }
}

/// The paths of some entries.
pub open spec fn entry_paths(entries: Seq<PathEntry>) -> Seq<Seq<char>> {
    entries.map_values(|e: PathEntry| e.path@)
}

proof fn lemma_session_kept_is_entries(entries: Seq<PathEntry>, vd: Seq<char>, bc: Seq<char>)
    ensures
        session_kept(entries, vd, bc) == entry_paths(session_entries(entries, vd, bc)),
        forall|k: int|
            0 <= k < session_entries(entries, vd, bc).len() ==> {
                let e = #[trigger] session_entries(entries, vd, bc)[k];
                stays_in_session(e.path@, e.canonical@, vd, bc)
            },
    decreases entries.len(),
{
    if entries.len() > 0 {
        lemma_session_kept_is_entries(entries.drop_last(), vd, bc);
        let rest = session_entries(entries.drop_last(), vd, bc);
        assert(entry_paths(rest.push(entries.last())) =~= entry_paths(rest).push(
            entries.last().path@,
        ));
        assert forall|k: int| 0 <= k < session_entries(entries, vd, bc).len() implies {
            let e = #[trigger] session_entries(entries, vd, bc)[k];
            stays_in_session(e.path@, e.canonical@, vd, bc)
        } by {
            if k < rest.len() {
                assert(session_entries(entries, vd, bc)[k] == rest[k]);
            }
        }
    } else {
        assert(entry_paths(entries) =~= Seq::<Seq<char>>::empty());
    }
}

proof fn lemma_session_kept_all_stay(entries: Seq<PathEntry>, vd: Seq<char>, bc: Seq<char>)
    requires
        forall|k: int|
            0 <= k < entries.len() ==> {
                let e = #[trigger] entries[k];
                stays_in_session(e.path@, e.canonical@, vd, bc)
            },
    ensures
        session_kept(entries, vd, bc) == entry_paths(entries),
    decreases entries.len(),
{
    if entries.len() > 0 {
        let init = entries.drop_last();
        assert forall|k: int| 0 <= k < init.len() implies {
            let e = #[trigger] init[k];
            stays_in_session(e.path@, e.canonical@, vd, bc)
        } by {
            assert(init[k] == entries[k]);
        }
        lemma_session_kept_all_stay(init, vd, bc);
        assert(entries.last() == entries[entries.len() - 1]);
        assert(entry_paths(entries) =~= entry_paths(init).push(entries.last().path@));
    } else {
        assert(entry_paths(entries) =~= Seq::<Seq<char>>::empty());
    }
}

proof fn lemma_session_kept_skips_first(
    first: PathEntry,
    rest: Seq<PathEntry>,
    vd: Seq<char>,
    bc: Seq<char>,
)
    requires
        !stays_in_session(first.path@, first.canonical@, vd, bc),
    ensures
        session_kept(seq![first] + rest, vd, bc) == session_kept(rest, vd, bc),
    decreases rest.len(),
{
    if rest.len() == 0 {
        assert(seq![first] + rest == seq![first]);
        assert(seq![first].drop_last() == Seq::<PathEntry>::empty());
        assert(seq![first].last() == first);
        assert(session_kept(Seq::<PathEntry>::empty(), vd, bc) == Seq::<Seq<char>>::empty());
        assert(session_kept(seq![first], vd, bc) == Seq::<Seq<char>>::empty());
    } else {
        lemma_session_kept_skips_first(first, rest.drop_last(), vd, bc);
        assert((seq![first] + rest).drop_last() == seq![first] + rest.drop_last());
        assert((seq![first] + rest).last() == rest.last());
    }
}

proof fn lemma_session_entries_from(entries: Seq<PathEntry>, vd: Seq<char>, bc: Seq<char>)
    ensures
        forall|k: int|
            0 <= k < session_entries(entries, vd, bc).len() ==> entries.contains(
                #[trigger] session_entries(entries, vd, bc)[k],
            ),
    decreases entries.len(),
{
    if entries.len() > 0 {
        lemma_session_entries_from(entries.drop_last(), vd, bc);
        let rest = session_entries(entries.drop_last(), vd, bc);
        assert forall|k: int| 0 <= k < session_entries(entries, vd, bc).len() implies entries.contains(
            #[trigger] session_entries(entries, vd, bc)[k],
        ) by {
            if k < rest.len() {
                assert(session_entries(entries, vd, bc)[k] == rest[k]);
                let j = choose|j: int|
                    0 <= j < entries.drop_last().len() && entries.drop_last()[j] == rest[k];
                assert(entries[j] == rest[k]);
            } else {
                assert(entries[entries.len() - 1] == entries.last());
            }
        }
    }
}

/// What a `set` keeps of the session PATH. No version `bin` that an earlier
/// `set` added survives: the path text of every kept entry, in lower case,
/// does not start with the `versions` folder in lower case, whatever the
/// entry canonicalizes to. Every kept path is the path of one of the
/// entries, one that does not canonicalize to the chosen `bin`. And where
/// every entry passes both tests, all of them are kept, in order.
pub proof fn lemma_session_drops_version_bins(
    entries: Seq<PathEntry>,
    versions_dir: Seq<char>,
    bin_canonical: Seq<char>,
)
    ensures
        forall|k: int|
            0 <= k < session_kept(entries, versions_dir, bin_canonical).len() ==> !has_prefix(
                lowercase(#[trigger] session_kept(entries, versions_dir, bin_canonical)[k]),
                lowercase(versions_dir),
            ),
        forall|k: int|
            0 <= k < session_kept(entries, versions_dir, bin_canonical).len() ==> exists|j: int|
                0 <= j < entries.len() && entries[j].path@ == #[trigger] session_kept(
                    entries,
                    versions_dir,
                    bin_canonical,
                )[k] && canonical_form(entries[j].canonical@) != canonical_form(bin_canonical),
        (forall|j: int|
            0 <= j < entries.len() ==> !has_prefix(
                lowercase((#[trigger] entries[j]).path@),
                lowercase(versions_dir),
            ) && canonical_form(entries[j].canonical@) != canonical_form(bin_canonical))
            ==> session_kept(entries, versions_dir, bin_canonical) == entry_paths(entries),
{
    let kept = session_kept(entries, versions_dir, bin_canonical);
    let es = session_entries(entries, versions_dir, bin_canonical);
    lemma_session_kept_is_entries(entries, versions_dir, bin_canonical);
    lemma_session_entries_from(entries, versions_dir, bin_canonical);
    assert forall|k: int| 0 <= k < kept.len() implies {
        &&& !has_prefix(lowercase(#[trigger] kept[k]), lowercase(versions_dir))
        &&& exists|j: int|
            0 <= j < entries.len() && entries[j].path@ == kept[k] && canonical_form(
                entries[j].canonical@,
            ) != canonical_form(bin_canonical)
    } by {
        assert(kept[k] == es[k].path@);
        let e = es[k];
        assert(stays_in_session(e.path@, e.canonical@, versions_dir, bin_canonical));
        let j = choose|j: int| 0 <= j < entries.len() && entries[j] == es[k];
        assert(entries[j].path@ == kept[k]);
    }
    if forall|j: int|
        0 <= j < entries.len() ==> !has_prefix(
            lowercase((#[trigger] entries[j]).path@),
            lowercase(versions_dir),
        ) && canonical_form(entries[j].canonical@) != canonical_form(bin_canonical) {
        lemma_session_kept_all_stay(entries, versions_dir, bin_canonical);
    }
}

/// Repeated `set`s do not pile up: setting the same version again, on the
/// session PATH that the first `set` produced, gives the same PATH (the
/// version's `bin` canonicalizes to itself both times).
pub proof fn lemma_set_twice_same_path(
    bin_entry: PathEntry,
    entries: Seq<PathEntry>,
    versions_dir: Seq<char>,
    bin_canonical: Seq<char>,
)
    requires
        canonical_form(bin_entry.canonical@) == canonical_form(bin_canonical),
    ensures
        session_kept(
            seq![bin_entry] + session_entries(entries, versions_dir, bin_canonical),
            versions_dir,
            bin_canonical,
        ) == session_kept(entries, versions_dir, bin_canonical),
{
    let kept = session_entries(entries, versions_dir, bin_canonical);
    lemma_session_kept_is_entries(entries, versions_dir, bin_canonical);
    lemma_session_kept_skips_first(bin_entry, kept, versions_dir, bin_canonical);
    lemma_session_kept_all_stay(kept, versions_dir, bin_canonical);
}

/// The session PATH: the chosen version's `bin` first, then the current
/// session PATH minus every version `bin` that an earlier `set` added (so
/// repeated `set`s do not pile up); `current\bin` and everything else stay
/// untouched, so the chosen version wins over the junction in this session
/// only.
pub fn session_path_parts(
    new_bin: &str,
    bin_canonical: &str,
    versions_dir: &str,
    entries: &Vec<PathEntry>,
) -> (r: Vec<String>)
    ensures
        r@.map_values(|x: String| x@) == seq![new_bin@] + session_kept(
            entries@,
            versions_dir@,
            bin_canonical@,
        ),
        r@.len() >= 1,
        r@[0]@ == new_bin@,
        forall|k: int|
            1 <= k < r@.len() ==> !has_prefix(lowercase(#[trigger] r@[k]@), lowercase(versions_dir@)),
{
    let vd = chars_of(versions_dir);
    let vl = lowercase_chars(&vd);
    let mut out: Vec<String> = Vec::new();
    out.push(String::from_str(new_bin));
    let mut i: usize = 0;
    while i < entries.len()
        invariant
            i <= entries.len(),
            vl@ == lowercase(versions_dir@),
            out@.map_values(|x: String| x@) == seq![new_bin@] + session_kept(
                entries@.take(i as int),
                versions_dir@,
                bin_canonical@,
            ),
        decreases entries.len() - i,
    {
        proof {
            assert(entries@.take(i + 1).drop_last() == entries@.take(i as int));
            assert(entries@.take(i + 1).last() == entries@[i as int]);
        }
        let e = &entries[i];
        let pl = lowercase_chars(&chars_of(e.path.as_str()));
        let under = starts_with(&pl, &vl);
        let same = same_canonical(e.canonical.as_str(), bin_canonical);
        if !under && !same {
            let ghost before = out@;
            out.push(e.path.clone());
            assert(out@.map_values(|x: String| x@) =~= before.map_values(|x: String| x@).push(
                e.path@,
            ));
        }
        i += 1;
    }
    assert(entries@.take(entries.len() as int) == entries@);
    proof {
        lemma_session_drops_version_bins(entries@, versions_dir@, bin_canonical@);
        let kept = session_kept(entries@, versions_dir@, bin_canonical@);
        assert forall|k: int| 1 <= k < out@.len() implies !has_prefix(
            lowercase(#[trigger] out@[k]@),
            lowercase(versions_dir@),
        ) by {
            assert(out@.map_values(|x: String| x@)[k] == out@[k]@);
            assert((seq![new_bin@] + kept)[k] == kept[k - 1]);
        }
        assert(out@.map_values(|x: String| x@)[0] == out@[0]@);
    }
    out
}

/// The lines that `set` prints for the shell to evaluate.
pub open spec fn session_script_spec(java_home: Seq<char>, path: Seq<char>, cmd: bool) -> Seq<
    Seq<char>,
> {
    if cmd {
        seq![
            "set \"JAVA_HOME="@ + java_home + "\""@,
            "set \"PATH="@ + path + "\""@,
        ]
    } else {
        seq![
            "$env:JAVA_HOME = '"@ + replace_char(java_home, '\'', seq!['\'', '\'']) + "'"@,
            "$env:Path = '"@ + replace_char(path, '\'', seq!['\'', '\'']) + "'"@,
        ]
    }
}

/// The assignments that `set` prints: each on one complete line, in
/// PowerShell syntax or, with `cmd`, in cmd.exe syntax.
pub fn session_script(java_home: &str, path: &str, cmd: bool) -> (r: Vec<String>)
    ensures
        r@.map_values(|x: String| x@) == session_script_spec(java_home@, path@, cmd),
{
    let mut a;
    let mut b;
    if cmd {
        a = String::from_str("set \"JAVA_HOME=");
        a.append(java_home);
        a.append("\"");
        b = String::from_str("set \"PATH=");
        b.append(path);
        b.append("\"");
    } else {
        a = String::from_str("$env:JAVA_HOME = '");
        a.append(ps_quote(java_home).as_str());
        a.append("'");
        b = String::from_str("$env:Path = '");
        b.append(ps_quote(path).as_str());
        b.append("'");
    }
    let r = vec![a, b];
    assert(r@.map_values(|x: String| x@) =~= session_script_spec(java_home@, path@, cmd));
    r
}

/// How to run `set` so that the shell evaluates it.
pub fn eval_hint(version: &str, cmd: bool) -> (r: String)
    ensures
        cmd ==> r@ == "jdkenv set "@ + version@
            + " --cmd > \"%TEMP%\\jdkset.bat\" & call \"%TEMP%\\jdkset.bat\""@,
        !cmd ==> r@ == "jdkenv set "@ + version@ + " | iex"@,
{
    let mut r = String::from_str("jdkenv set ");
    r.append(version);
    if cmd {
        r.append(" --cmd > \"%TEMP%\\jdkset.bat\" & call \"%TEMP%\\jdkset.bat\"");
    } else {
        r.append(" | iex");
    }
    r
}

} // verus!
