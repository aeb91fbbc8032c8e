//! The PATH and JAVA_HOME edits that jdkenv makes in the Windows registry,
//! computed on the values read from it.
//!
//! Entries are compared the way Windows compares paths: ignoring case,
//! surrounding whitespace and a trailing `\`. Recall that the effective PATH
//! is SYSTEM first, USER second; that is why `setup --system` exists.

use vstd::prelude::*;

use crate::text::{
    chars_eq, chars_of, concat_chars, join, join_chars, lemma_join_push, lemma_split_join,
    lemma_split_no_sep, lemma_split_nonempty, lowercase, lowercase_chars,
    replace_char, replace_chars, split, split_chars, string_of, string_views, trim, trim_end_char,
    trim_end_matches_char, trim_end_ws, trim_start_ws, trim_ws, views,
};

verus! {

/// Where environment changes are applied.
#[derive(Clone, Copy, PartialEq, Eq, Debug)]
pub enum Scope {
    /// `HKCU\Environment`: no UAC prompt, covers most cases.
    User,
    /// `HKLM\...\Environment`: needs elevation, wins over the user PATH.
    System,
}

impl Scope {
    /// The registry subkey that holds the environment of this scope.
    pub fn subkey(self) -> (r: &'static str)
        ensures
            self == Scope::User ==> r@ == "Environment"@,
            self == Scope::System ==> r@
                == "SYSTEM\\CurrentControlSet\\Control\\Session Manager\\Environment"@,
    {
        match self {
            Scope::User => "Environment",
            Scope::System => "SYSTEM\\CurrentControlSet\\Control\\Session Manager\\Environment",
        }
    }

    /// The scope's name in messages (`user` or `system`).
    pub fn name(self) -> (r: &'static str)
        ensures
            self == Scope::User ==> r@ == "user"@,
            self == Scope::System ==> r@ == "system"@,
    {
        match self {
            Scope::User => "user",
            Scope::System => "system",
        }
    }
}

// ---------------------------------------------------------------------------
// Comparison form of a PATH entry.
// ---------------------------------------------------------------------------

/// A PATH entry as Windows compares it: trimmed, without trailing `\`, in
/// lower case (an entry that trims to nothing compares as the empty text).
pub open spec fn spec_normalize(p: Seq<char>) -> Seq<char> {
    let t = trim_end_char(trim_ws(p), '\\');
    if t.len() == 0 {
        t
    } else {
        lowercase(t)
    }
}

/// The comparison form of a PATH entry.
pub fn normalize(p: &[char]) -> (r: Vec<char>)
    ensures
        r@ == spec_normalize(p@),
{
    let t = trim(p);
    let u = trim_end_matches_char(&t, '\\');
    if u.len() == 0 {
        u
    } else {
        lowercase_chars(&u)
    }
}

/// The comparison forms of a list of entries.
pub open spec fn normalize_all(entries: Seq<Seq<char>>) -> Seq<Seq<char>> {
    entries.map_values(|e: Seq<char>| spec_normalize(e))
}

// ---------------------------------------------------------------------------
// The parts of PATH.
// ---------------------------------------------------------------------------

/// The parts of a PATH value: the pieces between `;`. An empty PATH has no
/// parts.
pub open spec fn path_parts(current: Seq<char>) -> Seq<Seq<char>> {
    if current.len() == 0 {
        Seq::<Seq<char>>::empty()
    } else {
        split(current, ';')
    }
}

/// A part of PATH names one of the entries when its comparison form is one
/// of the entries' (an empty part names an entry that compares as empty).
pub open spec fn names_entry(p: Seq<char>, norms: Seq<Seq<char>>) -> bool {
    norms.contains(spec_normalize(p))
}

/// Whether a part of PATH is taken out: it names one of the entries and,
/// where empty parts are kept (`keep_empty`), it is not empty.
pub open spec fn is_removed(p: Seq<char>, norms: Seq<Seq<char>>, keep_empty: bool) -> bool {
    (keep_empty ==> p.len() > 0) && names_entry(p, norms)
}

/// The parts that are not taken out, verbatim and in order.
pub open spec fn remaining_parts(
    parts: Seq<Seq<char>>,
    norms: Seq<Seq<char>>,
    keep_empty: bool,
) -> Seq<Seq<char>>
    decreases parts.len(),
{
    if parts.len() == 0 {
        parts
    } else {
        let rest = remaining_parts(parts.drop_last(), norms, keep_empty);
        if is_removed(parts.last(), norms, keep_empty) {
            rest
        } else {
            rest.push(parts.last())
        }
    }
}

/// Whether `norms` contains `x`.
fn contains_chars(norms: &Vec<Vec<char>>, x: &[char]) -> (r: bool)
    ensures
        r == views(norms@).contains(x@),
{
    let mut i: usize = 0;
    while i < norms.len()
        invariant
            i <= norms.len(),
            forall|k: int| 0 <= k < i ==> views(norms@)[k] != x@,
        decreases norms.len() - i,
    {
        if chars_eq(&norms[i], x) {
            assert(views(norms@)[i as int] == x@);
            return true;
        }
        i += 1;
    }
    false
}

/// The comparison forms of `entries`.
fn normalize_entries(entries: &Vec<String>) -> (r: Vec<Vec<char>>)
    ensures
        views(r@) == normalize_all(string_views(entries@)),
{
    let mut r: Vec<Vec<char>> = Vec::new();
    let mut i: usize = 0;
    while i < entries.len()
        invariant
            i <= entries.len(),
            r@.len() == i,
            views(r@) == normalize_all(string_views(entries@)).take(i as int),
        decreases entries.len() - i,
    {
        let cs = chars_of(entries[i].as_str());
        let n = normalize(&cs);
        r.push(n);
        assert(string_views(entries@)[i as int] == entries@[i as int]@);
        assert(normalize_all(string_views(entries@))[i as int] == spec_normalize(entries@[i as int]@));
        assert(views(r@)[i as int] == n@);
        assert(views(r@) =~= normalize_all(string_views(entries@)).take(i + 1));
        i += 1;
    }
    assert(normalize_all(string_views(entries@)).take(entries.len() as int) == normalize_all(
        string_views(entries@),
    ));
    r
}

/// The text of each of `entries`.
fn entry_chars(entries: &Vec<String>) -> (r: Vec<Vec<char>>)
    ensures
        views(r@) == string_views(entries@),
{
    let mut r: Vec<Vec<char>> = Vec::new();
    let mut i: usize = 0;
    while i < entries.len()
        invariant
            i <= entries.len(),
            r@.len() == i,
            views(r@) == string_views(entries@).take(i as int),
        decreases entries.len() - i,
    {
        let cs = chars_of(entries[i].as_str());
        r.push(cs);
        assert(string_views(entries@)[i as int] == entries@[i as int]@);
        assert(views(r@)[i as int] == cs@);
        assert(views(r@) =~= string_views(entries@).take(i + 1));
        i += 1;
    }
    assert(string_views(entries@).take(entries.len() as int) == string_views(entries@));
    r
}

/// The parts of `parts` that do not name one of `norms`, and whether any
/// did.
fn remaining_exec(parts: &Vec<Vec<char>>, norms: &Vec<Vec<char>>, keep_empty: bool) -> (r: (
    Vec<Vec<char>>,
    bool,
))
    ensures
        views(r.0@) == remaining_parts(views(parts@), views(norms@), keep_empty),
        r.1 <==> exists|k: int|
            0 <= k < parts@.len() && is_removed(#[trigger] views(parts@)[k], views(norms@), keep_empty),
{
    let ghost ps = views(parts@);
    let ghost nrm = views(norms@);
    let mut kept: Vec<Vec<char>> = Vec::new();
    let mut removed_any = false;
    let mut i: usize = 0;
    while i < parts.len()
        invariant
            i <= parts.len(),
            ps == views(parts@),
            nrm == views(norms@),
            views(kept@) == remaining_parts(ps.take(i as int), nrm, keep_empty),
            removed_any <==> exists|k: int| 0 <= k < i && is_removed(#[trigger] ps[k], nrm, keep_empty),
        decreases parts.len() - i,
    {
        proof {
            assert(ps.take(i + 1).drop_last() == ps.take(i as int));
            assert(ps.take(i + 1).last() == ps[i as int]);
            assert(ps[i as int] == parts@[i as int]@);
        }
        let mut drop = false;
        if !keep_empty || parts[i].len() > 0 {
            let n = normalize(&parts[i]);
            drop = contains_chars(norms, &n);
        }
        if drop {
            removed_any = true;
        } else {
            let piece = concat_chars(&parts[i], &[]);
            let ghost before = kept@;
            kept.push(piece);
            assert(views(kept@) =~= views(before).push(ps[i as int]));
        }
        i += 1;
    }
    assert(ps.take(parts.len() as int) == ps);
    (kept, removed_any)
}

// ---------------------------------------------------------------------------
// Prepending to PATH.
// ---------------------------------------------------------------------------

/// The PATH after putting `entries` in front of `current`: the entries in
/// order, then every part of `current` that does not name one of them,
/// verbatim (an entry that was further back moves to the front; the rest of
/// PATH, empty parts included, is left as it was; an empty part goes only
/// where an entry itself compares as empty).
pub open spec fn prepended_path(current: Seq<char>, entries: Seq<Seq<char>>) -> Seq<char> {
    join(entries + remaining_parts(path_parts(current), normalize_all(entries), false), ';')
}

/// Puts `entries` (in order) in front of the PATH value `current`, without
/// duplicating them and without touching the rest. `None` where the result
/// compares equal to `current` (nothing to write: the entries are already in
/// front); otherwise the new value to write.
pub fn prepend_path(current: &str, entries: &Vec<String>) -> (r: Option<String>)
    ensures
        ({
            let new_path = prepended_path(current@, string_views(entries@));
            &&& r is None <==> spec_normalize(new_path) == spec_normalize(current@)
            &&& r matches Some(p) ==> p@ == new_path
        }),
{
    let norms = normalize_entries(entries);
    let front = entry_chars(entries);
    let cur = chars_of(current);
    let old_parts: Vec<Vec<char>> = if cur.len() == 0 {
        Vec::new()
    } else {
        split_chars(&cur, ';')
    };
    assert(views(old_parts@) == path_parts(cur@)) by {
        if cur.len() == 0 {
            assert(views(old_parts@) =~= Seq::<Seq<char>>::empty());
        }
    }
    let (rest, _) = remaining_exec(&old_parts, &norms, false);
    let mut parts = front;
    let mut i: usize = 0;
    let ghost e = views(parts@);
    while i < rest.len()
        invariant
            i <= rest.len(),
            views(parts@) == e + views(rest@).take(i as int),
        decreases rest.len() - i,
    {
        let piece = concat_chars(&rest[i], &[]);
        let ghost before = parts@;
        parts.push(piece);
        assert(views(rest@)[i as int] == rest@[i as int]@);
        assert(views(parts@) =~= views(before).push(piece@));
        assert(views(rest@).take(i + 1) =~= views(rest@).take(i as int).push(views(rest@)[i as int]));
        assert(views(parts@) =~= e + views(rest@).take(i + 1));
        i += 1;
    }
    assert(views(rest@).take(rest.len() as int) == views(rest@));
    let joined = join_chars(&parts, ';');
    let a = normalize(&joined);
    let b = normalize(&cur);
    if chars_eq(&a, &b) {
        None
    } else {
        Some(string_of(&joined))
    }
}

// ---------------------------------------------------------------------------
// Removing from PATH.
// ---------------------------------------------------------------------------

/// Whether any non-empty part of `current` names one of `entries`.
pub open spec fn removes_any(current: Seq<char>, entries: Seq<Seq<char>>) -> bool {
    exists|k: int|
        0 <= k < split(current, ';').len() && is_removed(
            #[trigger] split(current, ';')[k],
            normalize_all(entries),
            true,
        )
}

/// The PATH with the non-empty parts that name one of `entries` taken out.
pub open spec fn removed_path(current: Seq<char>, entries: Seq<Seq<char>>) -> Seq<char> {
    join(remaining_parts(split(current, ';'), normalize_all(entries), true), ';')
}

/// Takes the parts that `entries` name (compared in normal form) out of the
/// PATH value `current`, leaving everything else, empty parts included,
/// verbatim. `None` where
/// nothing was taken out; otherwise the new value to write. The inverse of
/// [`prepend_path`].
pub fn remove_from_path(current: &str, entries: &Vec<String>) -> (r: Option<String>)
    ensures
        r is Some <==> removes_any(current@, string_views(entries@)),
        r matches Some(p) ==> p@ == removed_path(current@, string_views(entries@)),
{
    let norms = normalize_entries(entries);
    let cur = chars_of(current);
    let old_parts = split_chars(&cur, ';');
    let (kept, removed_any) = remaining_exec(&old_parts, &norms, true);
    if !removed_any {
        return None;
    }
    let joined = join_chars(&kept, ';');
    Some(string_of(&joined))
}


// ---------------------------------------------------------------------------
// Registry value types.
// ---------------------------------------------------------------------------

/// The types of a registry value that holds text.
#[derive(Clone, Copy, PartialEq, Eq, Debug)]
pub enum TextValueType {
    /// `REG_SZ`: plain text.
    Sz,
    /// `REG_EXPAND_SZ`: text whose `%VAR%` references are expanded.
    ExpandSz,
    /// `REG_MULTI_SZ`: a list of texts.
    MultiSz,
}

/// The type PATH is written with: the type it already has (downgrading
/// `REG_EXPAND_SZ` to `REG_SZ` would stop `%SystemRoot%` and the like from
/// expanding), or `REG_EXPAND_SZ`, the canonical type of PATH, where there
/// is no PATH yet.
pub fn path_value_type(existing: Option<TextValueType>) -> (r: TextValueType)
    ensures
        r == match existing {
            Some(t) => t,
            None => TextValueType::ExpandSz,
        },
{
    match existing {
        Some(t) => t,
        None => TextValueType::ExpandSz,
    }
}

/// The type JAVA_HOME is written with: `REG_SZ`, since it is an absolute
/// path without variables.
pub fn java_home_value_type() -> (r: TextValueType)
    ensures
        r == TextValueType::Sz,
{
    TextValueType::Sz
}

// ---------------------------------------------------------------------------
// JAVA_HOME.
// ---------------------------------------------------------------------------

/// Whether JAVA_HOME must be written to become `value`: unless it is set and
/// already compares equal to it.
pub fn set_java_home(current: Option<String>, value: &str) -> (r: bool)
    ensures
        r == !(current matches Some(c) && spec_normalize(c@) == spec_normalize(value@)),
{
    match current {
        Some(c) => {
            let a = normalize(&chars_of(c.as_str()));
            let b = normalize(&chars_of(value));
            !chars_eq(&a, &b)
        },
        None => true,
    }
}

/// What undoing JAVA_HOME does (used by `setup --undo`).
pub enum JavaHomeUndo {
    /// It pointed at jdkenv and is removed.
    Removed,
    /// It was not set.
    NotSet,
    /// It points elsewhere (not jdkenv's): left alone.
    KeptForeign(String),
}

/// Whether JAVA_HOME is to be removed: only if it points at `expected` (the
/// `current` of jdkenv); a foreign JAVA_HOME that the user had before is
/// never removed.
pub fn clear_java_home_if(current: Option<String>, expected: &str) -> (r: JavaHomeUndo)
    ensures
        match current {
            None => r is NotSet,
            Some(c) => if spec_normalize(c@) == spec_normalize(expected@) {
                r is Removed
            } else {
                (r matches JavaHomeUndo::KeptForeign(v) && v@ == c@)
            },
        },
{
    match current {
        None => JavaHomeUndo::NotSet,
        Some(c) => {
            let a = normalize(&chars_of(c.as_str()));
            let b = normalize(&chars_of(expected));
            if chars_eq(&a, &b) {
                JavaHomeUndo::Removed
            } else {
                JavaHomeUndo::KeptForeign(c)
            }
        },
    }
}

// ---------------------------------------------------------------------------
// Laws.
// ---------------------------------------------------------------------------

/// Joining the pieces of a split gives the text back.
pub proof fn lemma_join_split(s: Seq<char>, sep: char)
    ensures
        join(split(s, sep), sep) == s,
    decreases s.len(),
{
    if s.len() > 0 {
        let t = s.drop_last();
        lemma_join_split(t, sep);
        lemma_split_nonempty(t, sep);
        let prev = split(t, sep);
        if s.last() == sep {
            lemma_join_push(prev, Seq::<char>::empty(), sep);
            assert(join(prev, sep).push(sep) + Seq::<char>::empty() == s);
        } else {
            let last = prev.last().push(s.last());
            let upd = prev.update(prev.len() - 1, last);
            if prev.len() == 1 {
                assert(upd == seq![last]);
                assert(seq![last].drop_last() == Seq::<Seq<char>>::empty());
                assert(join(upd, sep) == last);
                assert(prev[0] == t);
                assert(last == s);
            } else {
                assert(upd.drop_last() == prev.drop_last());
                assert(upd.last() == last);
                assert(join(prev, sep) == join(prev.drop_last(), sep).push(sep) + prev.last());
                assert(join(upd, sep) == join(prev.drop_last(), sep).push(sep) + last);
                assert(join(upd, sep) == t.push(s.last()));
                assert(t.push(s.last()) == s);
            }
        }
    } else {
        assert(split(s, sep) == seq![Seq::<char>::empty()]);
        assert(seq![Seq::<char>::empty()].drop_last() == Seq::<Seq<char>>::empty());
        assert(join(seq![Seq::<char>::empty()], sep) == Seq::<char>::empty());
    }
}

/// Joining the parts of a PATH value gives the value back.
pub proof fn lemma_join_path_parts(s: Seq<char>)
    ensures
        join(path_parts(s), ';') == s,
{
    if s.len() > 0 {
        lemma_join_split(s, ';');
    }
}

proof fn lemma_remaining_props(parts: Seq<Seq<char>>, norms: Seq<Seq<char>>, keep_empty: bool)
    ensures
        forall|k: int|
            0 <= k < remaining_parts(parts, norms, keep_empty).len() ==> {
                &&& !is_removed(
                    #[trigger] remaining_parts(parts, norms, keep_empty)[k],
                    norms,
                    keep_empty,
                )
                &&& parts.contains(remaining_parts(parts, norms, keep_empty)[k])
            },
    decreases parts.len(),
{
    if parts.len() > 0 {
        lemma_remaining_props(parts.drop_last(), norms, keep_empty);
        let rest = remaining_parts(parts.drop_last(), norms, keep_empty);
        assert forall|k: int| 0 <= k < remaining_parts(parts, norms, keep_empty).len() implies {
            &&& !is_removed(#[trigger] remaining_parts(parts, norms, keep_empty)[k], norms, keep_empty)
            &&& parts.contains(remaining_parts(parts, norms, keep_empty)[k])
        } by {
            if k < rest.len() {
                assert(remaining_parts(parts, norms, keep_empty)[k] == rest[k]);
                let j = choose|j: int|
                    0 <= j < parts.drop_last().len() && parts.drop_last()[j] == rest[k];
                assert(parts[j] == rest[k]);
            } else {
                assert(parts[parts.len() - 1] == parts.last());
            }
        }
    }
}

proof fn lemma_remaining_of_entries(entries: Seq<Seq<char>>, norms: Seq<Seq<char>>, keep_empty: bool)
    requires
        forall|k: int| 0 <= k < entries.len() ==> is_removed(#[trigger] entries[k], norms, keep_empty),
    ensures
        remaining_parts(entries, norms, keep_empty) == Seq::<Seq<char>>::empty(),
    decreases entries.len(),
{
    if entries.len() > 0 {
        let init = entries.drop_last();
        assert forall|k: int| 0 <= k < init.len() implies is_removed(
            #[trigger] init[k],
            norms,
            keep_empty,
        ) by {
            assert(init[k] == entries[k]);
        }
        lemma_remaining_of_entries(init, norms, keep_empty);
        assert(entries.last() == entries[entries.len() - 1]);
    }
}

proof fn lemma_remaining_all_stay(parts: Seq<Seq<char>>, norms: Seq<Seq<char>>, keep_empty: bool)
    requires
        forall|k: int| 0 <= k < parts.len() ==> !is_removed(#[trigger] parts[k], norms, keep_empty),
    ensures
        remaining_parts(parts, norms, keep_empty) == parts,
    decreases parts.len(),
{
    if parts.len() > 0 {
        let init = parts.drop_last();
        assert forall|k: int| 0 <= k < init.len() implies !is_removed(
            #[trigger] init[k],
            norms,
            keep_empty,
        ) by {
            assert(init[k] == parts[k]);
        }
        lemma_remaining_all_stay(init, norms, keep_empty);
        assert(parts.last() == parts[parts.len() - 1]);
        assert(init.push(parts.last()) == parts);
    }
}

proof fn lemma_remaining_append(
    a: Seq<Seq<char>>,
    b: Seq<Seq<char>>,
    norms: Seq<Seq<char>>,
    keep_empty: bool,
)
    ensures
        remaining_parts(a + b, norms, keep_empty) == remaining_parts(a, norms, keep_empty)
            + remaining_parts(b, norms, keep_empty),
    decreases b.len(),
{
    if b.len() == 0 {
        assert(a + b == a);
        assert(remaining_parts(a, norms, keep_empty) + remaining_parts(b, norms, keep_empty)
            == remaining_parts(a, norms, keep_empty));
    } else {
        lemma_remaining_append(a, b.drop_last(), norms, keep_empty);
        assert((a + b).drop_last() == a + b.drop_last());
        assert((a + b).last() == b.last());
    }
}

/// Where no entry compares as empty, keeping empty parts or not makes no
/// difference.
proof fn lemma_keep_empty_irrelevant(parts: Seq<Seq<char>>, norms: Seq<Seq<char>>)
    requires
        !names_entry(Seq::<char>::empty(), norms),
    ensures
        remaining_parts(parts, norms, false) == remaining_parts(parts, norms, true),
    decreases parts.len(),
{
    if parts.len() > 0 {
        lemma_keep_empty_irrelevant(parts.drop_last(), norms);
        if parts.last().len() == 0 {
            assert(parts.last() == Seq::<char>::empty());
        }
    }
}

/// The empty text compares as empty, so an entry that does not compare as
/// empty is not empty.
proof fn lemma_normalize_empty(e: Seq<char>)
    ensures
        spec_normalize(Seq::<char>::empty()) == Seq::<char>::empty(),
        spec_normalize(e).len() > 0 ==> e.len() > 0,
{
    let z = Seq::<char>::empty();
    assert(trim_start_ws(z) == z);
    assert(trim_end_ws(z) == z);
    assert(trim_end_char(z, '\\') == z);
    if e.len() == 0 {
        assert(e == z);
    }
}

/// Every entry names itself.
proof fn lemma_entries_named(entries: Seq<Seq<char>>)
    ensures
        forall|k: int| 0 <= k < entries.len() ==> names_entry(#[trigger] entries[k], normalize_all(entries)),
{
    assert forall|k: int| 0 <= k < entries.len() implies names_entry(
        #[trigger] entries[k],
        normalize_all(entries),
    ) by {
        assert(normalize_all(entries)[k] == spec_normalize(entries[k]));
    }
}

/// With no entries, nothing is taken out.
proof fn lemma_remaining_no_entries(parts: Seq<Seq<char>>, keep_empty: bool)
    ensures
        remaining_parts(parts, normalize_all(Seq::<Seq<char>>::empty()), keep_empty) == parts,
{
    let n = normalize_all(Seq::<Seq<char>>::empty());
    assert forall|k: int| 0 <= k < parts.len() implies !is_removed(#[trigger] parts[k], n, keep_empty) by {
        assert(n.len() == 0);
    }
    lemma_remaining_all_stay(parts, n, keep_empty);
}

/// Prepending no entries gives PATH back.
proof fn lemma_prepend_nothing(current: Seq<char>)
    ensures
        prepended_path(current, Seq::<Seq<char>>::empty()) == current,
{
    lemma_remaining_no_entries(path_parts(current), false);
    lemma_join_path_parts(current);
    assert(Seq::<Seq<char>>::empty() + path_parts(current) == path_parts(current));
}

/// The parts of a prepended PATH: the entries, then the parts of the old
/// PATH that do not name them.
pub proof fn lemma_prepend_pieces(current: Seq<char>, entries: Seq<Seq<char>>)
    requires
        entries.len() > 0,
        forall|k: int| 0 <= k < entries.len() ==> !(#[trigger] entries[k]).contains(';'),
    ensures
        split(prepended_path(current, entries), ';') == entries + remaining_parts(
            path_parts(current),
            normalize_all(entries),
            false,
        ),
{
    let rest = remaining_parts(path_parts(current), normalize_all(entries), false);
    let all = entries + rest;
    lemma_remaining_props(path_parts(current), normalize_all(entries), false);
    lemma_split_no_sep(current, ';');
    assert forall|k: int| 0 <= k < all.len() implies !(#[trigger] all[k]).contains(';') by {
        if k < entries.len() {
            assert(all[k] == entries[k]);
        } else {
            assert(all[k] == rest[k - entries.len()]);
            let j = choose|j: int|
                0 <= j < path_parts(current).len() && path_parts(current)[j] == rest[k
                    - entries.len()];
        }
    }
    lemma_split_join(all, ';');
}

/// Prepending is idempotent: once the entries are in front, prepending them
/// again gives the same PATH, so nothing is rewritten.
pub proof fn lemma_prepend_idempotent(current: Seq<char>, entries: Seq<Seq<char>>)
    requires
        forall|k: int| 0 <= k < entries.len() ==> !(#[trigger] entries[k]).contains(';'),
    ensures
        prepended_path(prepended_path(current, entries), entries) == prepended_path(
            current,
            entries,
        ),
{
    let n = normalize_all(entries);
    let p1 = prepended_path(current, entries);
    if entries.len() == 0 {
        assert(entries == Seq::<Seq<char>>::empty());
        lemma_prepend_nothing(current);
        lemma_prepend_nothing(p1);
    } else {
        let rest = remaining_parts(path_parts(current), n, false);
        lemma_prepend_pieces(current, entries);
        lemma_remaining_append(entries, rest, n, false);
        lemma_entries_named(entries);
        lemma_remaining_of_entries(entries, n, false);
        lemma_remaining_props(path_parts(current), n, false);
        lemma_remaining_all_stay(rest, n, false);
        if p1.len() == 0 {
            assert(split(p1, ';') == seq![Seq::<char>::empty()]);
            assert((entries + rest).len() == 1);
            assert(rest.len() == 0);
            assert(entries + rest == entries);
            assert(path_parts(p1) == Seq::<Seq<char>>::empty());
            assert(remaining_parts(Seq::<Seq<char>>::empty(), n, false) == Seq::<
                Seq<char>,
            >::empty());
            assert(entries + Seq::<Seq<char>>::empty() == entries);
        } else {
            assert(path_parts(p1) == entries + rest);
            assert(Seq::<Seq<char>>::empty() + rest == rest);
        }
    }
}

/// When the entries already stand in front of PATH, in order, and no later
/// part names any of them, prepending gives PATH back unchanged, so nothing
/// is rewritten (empty parts and a trailing `;` included).
pub proof fn lemma_prepend_keeps_front(
    current: Seq<char>,
    entries: Seq<Seq<char>>,
    rest: Seq<Seq<char>>,
)
    requires
        forall|k: int| 0 <= k < entries.len() ==> !(#[trigger] entries[k]).contains(';'),
        split(current, ';') == entries + rest,
        forall|k: int| 0 <= k < rest.len() ==> !names_entry(#[trigger] rest[k], normalize_all(entries)),
    ensures
        prepended_path(current, entries) == current,
{
    let n = normalize_all(entries);
    if current.len() == 0 {
        assert(split(current, ';') == seq![Seq::<char>::empty()]);
        assert((entries + rest).len() == 1);
        if entries.len() > 0 {
            assert(rest.len() == 0);
            assert(entries[0] == (entries + rest)[0]);
            assert(path_parts(current) == Seq::<Seq<char>>::empty());
            assert(remaining_parts(Seq::<Seq<char>>::empty(), n, false) == Seq::<
                Seq<char>,
            >::empty());
            assert(entries + Seq::<Seq<char>>::empty() == entries);
        } else {
            assert(entries == Seq::<Seq<char>>::empty());
            lemma_prepend_nothing(current);
        }
    } else {
        lemma_remaining_append(entries, rest, n, false);
        lemma_entries_named(entries);
        lemma_remaining_of_entries(entries, n, false);
        lemma_remaining_all_stay(rest, n, false);
        assert(Seq::<Seq<char>>::empty() + rest == rest);
        lemma_join_split(current, ';');
    }
}

/// After a prepend, the PATH starts with the entries, in order, and no later
/// part names any of them.
pub proof fn lemma_prepend_puts_entries_first(current: Seq<char>, entries: Seq<Seq<char>>)
    requires
        entries.len() > 0,
        forall|k: int| 0 <= k < entries.len() ==> !(#[trigger] entries[k]).contains(';'),
    ensures
        ({
            let parts = split(prepended_path(current, entries), ';');
            &&& parts.take(entries.len() as int) == entries
            &&& forall|k: int|
                entries.len() <= k < parts.len() ==> !names_entry(
                    #[trigger] parts[k],
                    normalize_all(entries),
                )
        }),
{
    let n = normalize_all(entries);
    let rest = remaining_parts(path_parts(current), n, false);
    lemma_prepend_pieces(current, entries);
    lemma_remaining_props(path_parts(current), n, false);
    let parts = entries + rest;
    assert(parts.take(entries.len() as int) == entries);
    assert forall|k: int| entries.len() <= k < parts.len() implies !names_entry(
        #[trigger] parts[k],
        n,
    ) by {
        assert(parts[k] == rest[k - entries.len()]);
        assert(!is_removed(rest[k - entries.len()], n, false));
    }
}

/// No entry that compares as non-empty makes an empty part name it.
proof fn lemma_empty_part_names_nothing(entries: Seq<Seq<char>>)
    requires
        forall|k: int| 0 <= k < entries.len() ==> (#[trigger] spec_normalize(entries[k])).len() > 0,
    ensures
        !names_entry(Seq::<char>::empty(), normalize_all(entries)),
        forall|k: int| 0 <= k < entries.len() ==> (#[trigger] entries[k]).len() > 0,
{
    let n = normalize_all(entries);
    lemma_normalize_empty(Seq::<char>::empty());
    if n.contains(Seq::<char>::empty()) {
        let k = choose|k: int| 0 <= k < n.len() && n[k] == Seq::<char>::empty();
        assert(n[k] == spec_normalize(entries[k]));
    }
    assert forall|k: int| 0 <= k < entries.len() implies (#[trigger] entries[k]).len() > 0 by {
        lemma_normalize_empty(entries[k]);
    }
}

/// Undoing a prepend takes out exactly what the prepend put in: the result is
/// the old PATH with the entries taken out, as if it had never been
/// prepended; and it reports a change exactly when there were entries.
pub proof fn lemma_remove_undoes_prepend(current: Seq<char>, entries: Seq<Seq<char>>)
    requires
        forall|k: int|
            0 <= k < entries.len() ==> !(#[trigger] entries[k]).contains(';') && spec_normalize(
                entries[k],
            ).len() > 0,
    ensures
        removed_path(prepended_path(current, entries), entries) == removed_path(current, entries),
        removes_any(prepended_path(current, entries), entries) <==> entries.len() > 0,
{
    let n = normalize_all(entries);
    let p1 = prepended_path(current, entries);
    if entries.len() == 0 {
        assert(entries == Seq::<Seq<char>>::empty());
        lemma_prepend_nothing(current);
        assert forall|k: int| 0 <= k < split(p1, ';').len() implies !is_removed(
            #[trigger] split(p1, ';')[k],
            n,
            true,
        ) by {
            assert(n.len() == 0);
        }
    } else {
        assert forall|k: int| 0 <= k < entries.len() implies (#[trigger] spec_normalize(
            entries[k],
        )).len() > 0 by {}
        lemma_empty_part_names_nothing(entries);
        let rest = remaining_parts(path_parts(current), n, false);
        lemma_keep_empty_irrelevant(path_parts(current), n);
        lemma_prepend_pieces(current, entries);
        lemma_remaining_append(entries, rest, n, true);
        lemma_entries_named(entries);
        lemma_remaining_of_entries(entries, n, true);
        lemma_remaining_props(path_parts(current), n, true);
        lemma_remaining_all_stay(rest, n, true);
        assert(Seq::<Seq<char>>::empty() + rest == rest);
        if current.len() == 0 {
            assert(rest == Seq::<Seq<char>>::empty());
            assert(split(current, ';') == seq![Seq::<char>::empty()]);
            assert(seq![Seq::<char>::empty()].drop_last() == Seq::<Seq<char>>::empty());
            assert(seq![Seq::<char>::empty()].last() == Seq::<char>::empty());
            assert(remaining_parts(seq![Seq::<char>::empty()], n, true) == seq![
                Seq::<char>::empty(),
            ]);
            assert(join(seq![Seq::<char>::empty()], ';') == Seq::<char>::empty());
            assert(join(Seq::<Seq<char>>::empty(), ';') == Seq::<char>::empty());
        }
        let parts = entries + rest;
        assert(parts[0] == entries[0]);
        assert(is_removed(split(p1, ';')[0], n, true));
    }
}

/// Setup then undo restores PATH exactly, when PATH named none of the
/// entries before: the undo finds something to take out (where there are
/// entries) and writes back the PATH as it was.
pub proof fn lemma_undo_restores_path(current: Seq<char>, entries: Seq<Seq<char>>)
    requires
        forall|k: int|
            0 <= k < entries.len() ==> !(#[trigger] entries[k]).contains(';') && spec_normalize(
                entries[k],
            ).len() > 0,
        forall|k: int|
            0 <= k < split(current, ';').len() ==> !names_entry(
                #[trigger] split(current, ';')[k],
                normalize_all(entries),
            ),
    ensures
        entries.len() > 0 ==> removes_any(prepended_path(current, entries), entries),
        removed_path(prepended_path(current, entries), entries) == current,
{
    let n = normalize_all(entries);
    lemma_remove_undoes_prepend(current, entries);
    assert forall|k: int| 0 <= k < split(current, ';').len() implies !is_removed(
        #[trigger] split(current, ';')[k],
        n,
        true,
    ) by {}
    lemma_remaining_all_stay(split(current, ';'), n, true);
    lemma_join_split(current, ';');
}

/// Undoing is idempotent: once jdkenv's entries are taken out of PATH, taking
/// them out again finds nothing, so nothing is rewritten.
pub proof fn lemma_remove_idempotent(current: Seq<char>, entries: Seq<Seq<char>>)
    ensures
        !removes_any(removed_path(current, entries), entries),
{
    let n = normalize_all(entries);
    let rem = remaining_parts(split(current, ';'), n, true);
    let r = removed_path(current, entries);
    lemma_remaining_props(split(current, ';'), n, true);
    if rem.len() == 0 {
        assert(r == Seq::<char>::empty());
        assert(split(r, ';') == seq![Seq::<char>::empty()]);
        assert forall|k: int| 0 <= k < split(r, ';').len() implies !is_removed(
            #[trigger] split(r, ';')[k],
            n,
            true,
        ) by {
            assert(split(r, ';')[k] == Seq::<char>::empty());
        }
    } else {
        lemma_split_no_sep(current, ';');
        assert forall|k: int| 0 <= k < rem.len() implies !(#[trigger] rem[k]).contains(';') by {
            let j = choose|j: int|
                0 <= j < split(current, ';').len() && split(current, ';')[j] == rem[k];
        }
        lemma_split_join(rem, ';');
    }
}

// ---------------------------------------------------------------------------
// Registry encoding and the command line of the elevated relaunch.
// ---------------------------------------------------------------------------

/// The UTF-16 code units of one character.
pub open spec fn utf16_units(c: char) -> Seq<u16> {
    let u = c as u32;
    if u < 0x10000 {
        seq![u as u16]
    } else {
        let v = (u - 0x10000) as u32;
        seq![(0xD800 + v / 0x400) as u16, (0xDC00 + v % 0x400) as u16]
    }
}

/// The UTF-16 encoding of a string (`str::encode_utf16`).
pub open spec fn utf16(s: Seq<char>) -> Seq<u16>
    decreases s.len(),
{
    if s.len() == 0 {
        Seq::<u16>::empty()
    } else {
        utf16(s.drop_last()) + utf16_units(s.last())
    }
}

/// Code units as little-endian bytes.
pub open spec fn le_bytes(units: Seq<u16>) -> Seq<u8>
    decreases units.len(),
{
    if units.len() == 0 {
        Seq::<u8>::empty()
    } else {
        le_bytes(units.drop_last()) + seq![
            (units.last() % 256) as u8,
            (units.last() / 256) as u8,
        ]
    }
}

/// The bytes of a `REG_SZ` / `REG_EXPAND_SZ` value: UTF-16LE with a
/// terminating NUL.
pub open spec fn wide_bytes(s: Seq<char>) -> Seq<u8> {
    le_bytes(utf16(s).push(0u16))
}

proof fn lemma_le_bytes_append(a: Seq<u16>, b: Seq<u16>)
    ensures
        le_bytes(a + b) == le_bytes(a) + le_bytes(b),
    decreases b.len(),
{
    if b.len() == 0 {
        assert(a + b == a);
        assert(le_bytes(a) + le_bytes(b) == le_bytes(a));
    } else {
        lemma_le_bytes_append(a, b.drop_last());
        assert((a + b).drop_last() == a + b.drop_last());
        assert((a + b).last() == b.last());
    }
}

/// Appends the little-endian bytes of one code unit.
fn push_unit(out: &mut Vec<u8>, u: u16)
    ensures
        final(out)@ == old(out)@ + seq![(u % 256) as u8, (u / 256) as u8],
{
    out.push((u % 256) as u8);
    out.push((u / 256) as u8);
}

/// Encodes a string as a registry string value: UTF-16LE with a terminating
/// NUL.
pub fn encode_wide_bytes(s: &str) -> (r: Vec<u8>)
    ensures
        r@ == wide_bytes(s@),
{
    let cs = chars_of(s);
    let mut out: Vec<u8> = Vec::new();
    let mut i: usize = 0;
    while i < cs.len()
        invariant
            i <= cs.len(),
            out@ == le_bytes(utf16(cs@.take(i as int))),
        decreases cs.len() - i,
    {
        let c = cs[i];
        let u = c as u32;
        let ghost prev = utf16(cs@.take(i as int));
        proof {
            assert(cs@.take(i + 1).drop_last() == cs@.take(i as int));
            assert(cs@.take(i + 1).last() == c);
            lemma_le_bytes_append(prev, utf16_units(c));
        }
        if u < 0x10000 {
            let unit = u as u16;
            push_unit(&mut out, unit);
            proof {
                let one = seq![unit];
                assert(one.drop_last() == Seq::<u16>::empty());
                assert(one.last() == unit);
                assert(le_bytes(Seq::<u16>::empty()) == Seq::<u8>::empty());
                assert(le_bytes(one) == seq![(unit % 256) as u8, (unit / 256) as u8]);
            }
        } else {
            let v = u - 0x10000;
            let hi = (0xD800 + v / 0x400) as u16;
            let lo = (0xDC00 + v % 0x400) as u16;
            push_unit(&mut out, hi);
            push_unit(&mut out, lo);
            proof {
                let two = seq![hi, lo];
                assert(two.drop_last() == seq![hi]);
                assert(two.last() == lo);
                assert(seq![hi].drop_last() == Seq::<u16>::empty());
                assert(seq![hi].last() == hi);
                assert(le_bytes(Seq::<u16>::empty()) == Seq::<u8>::empty());
                assert(le_bytes(seq![hi]) == seq![(hi % 256) as u8, (hi / 256) as u8]);
                assert(le_bytes(two) == seq![(hi % 256) as u8, (hi / 256) as u8] + seq![
                    (lo % 256) as u8,
                    (lo / 256) as u8,
                ]);
            }
        }
        i += 1;
    }
    assert(cs@.take(cs.len() as int) == cs@);
    proof {
        lemma_le_bytes_append(utf16(cs@), seq![0u16]);
        assert(utf16(cs@).push(0u16) == utf16(cs@) + seq![0u16]);
        assert(seq![0u16].drop_last() == Seq::<u16>::empty());
        assert(seq![0u16].last() == 0u16);
        assert(le_bytes(Seq::<u16>::empty()) == Seq::<u8>::empty());
        assert(le_bytes(seq![0u16]) == seq![0u8, 0u8]);
    }
    push_unit(&mut out, 0);
    assert(seq![(0u16 % 256) as u8, (0u16 / 256) as u8] == seq![0u8, 0u8]);
    out
}

/// An argument needs quotes on the command line when it is empty or holds a
/// space, a tab or a double quote.
pub open spec fn needs_quotes(a: Seq<char>) -> bool {
    a.len() == 0 || a.contains(' ') || a.contains('\t') || a.contains('"')
}

/// An argument as it goes on the command line: quoted (with inner `"`
/// escaped as `\"`) where it needs quotes, verbatim otherwise.
pub open spec fn quoted_arg(a: Seq<char>) -> Seq<char> {
    if needs_quotes(a) {
        seq!['"'] + replace_char(a, '"', seq!['\\', '"']) + seq!['"']
    } else {
        a
    }
}

/// Whether `v` holds `c`.
fn has_char(v: &[char], c: char) -> (r: bool)
    ensures
        r == v@.contains(c),
{
    let mut i: usize = 0;
    while i < v.len()
        invariant
            i <= v.len(),
            forall|k: int| 0 <= k < i ==> v@[k] != c,
        decreases v.len() - i,
    {
        if v[i] == c {
            assert(v@[i as int] == c);
            return true;
        }
        i += 1;
    }
    false
}

/// Quotes an argument for the command line.
pub fn quote_arg(a: &str) -> (r: String)
    ensures
        r@ == quoted_arg(a@),
{
    let cs = chars_of(a);
    if cs.len() == 0 || has_char(&cs, ' ') || has_char(&cs, '\t') || has_char(&cs, '"') {
        let esc: Vec<char> = vec!['\\', '"'];
        let inner = replace_chars(&cs, '"', &esc);
        let open: Vec<char> = vec!['"'];
        let q1 = concat_chars(&open, &inner);
        let q2 = concat_chars(&q1, &open);
        string_of(&q2)
    } else {
        string_of(&cs)
    }
}

/// The parameters of the elevated relaunch: each argument quoted, separated
/// by spaces.
pub open spec fn elevation_params_text(args: Seq<Seq<char>>) -> Seq<char> {
    join(args.map_values(|a: Seq<char>| quoted_arg(a)), ' ')
}

/// The parameters of the elevated relaunch.
pub fn elevation_params(args: &Vec<String>) -> (r: String)
    ensures
        r@ == elevation_params_text(string_views(args@)),
{
    let mut quoted: Vec<Vec<char>> = Vec::new();
    let mut i: usize = 0;
    while i < args.len()
        invariant
            i <= args.len(),
            quoted@.len() == i,
            views(quoted@) == string_views(args@).map_values(|a: Seq<char>| quoted_arg(a)).take(
                i as int,
            ),
        decreases args.len() - i,
    {
        let q = quote_arg(args[i].as_str());
        let qc = chars_of(q.as_str());
        quoted.push(qc);
        assert(string_views(args@)[i as int] == args@[i as int]@);
        assert(views(quoted@)[i as int] == quoted_arg(args@[i as int]@));
        assert(views(quoted@) =~= string_views(args@).map_values(|a: Seq<char>| quoted_arg(a)).take(
            i + 1,
        ));
        i += 1;
    }
    assert(string_views(args@).map_values(|a: Seq<char>| quoted_arg(a)).take(args.len() as int)
        == string_views(args@).map_values(|a: Seq<char>| quoted_arg(a)));
    let j = join_chars(&quoted, ' ');
    string_of(&j)
}

/// Why the elevated relaunch could not start.
pub enum ElevationFailure {
    /// The user declined the UAC prompt.
    Cancelled,
    /// Windows reported another error.
    Failed(u32),
}

/// The failure that a `ShellExecuteExW` error code means (`1223` is
/// `ERROR_CANCELLED`).
pub fn elevation_failure(err: u32) -> (r: ElevationFailure)
    ensures
        err == 1223 ==> r is Cancelled,
        err != 1223 ==> r == ElevationFailure::Failed(err),
{
    if err == 1223 {
        ElevationFailure::Cancelled
    } else {
        ElevationFailure::Failed(err)
    }
}

} // verus!
