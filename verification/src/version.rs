//! Version strings: their numeric keys, how keys are ordered, and how a
//! user's query (`21`, `21.0.5`, `temurin-21.0.5`) selects a version.

use vstd::prelude::*;

use crate::text::{
    chars_eq, chars_of, is_digit, join, lemma_split_join, lemma_split_no_sep, lemma_split_nonempty,
    position_of, split, split_chars, sub_chars, views,
};

use crate::env_win::lemma_join_split;

verus! {

// ---------------------------------------------------------------------------
// Specifications.
// ---------------------------------------------------------------------------

/// The numeric value of an ASCII digit.
pub open spec fn digit_value(c: char) -> nat {
    ((c as u32) - ('0' as u32)) as nat
}

/// Every character is an ASCII digit.
pub open spec fn all_digits(s: Seq<char>) -> bool {
    forall|i: int| 0 <= i < s.len() ==> is_digit(#[trigger] s[i])
}

/// The decimal value of a digit string (unbounded).
pub open spec fn digits_value(s: Seq<char>) -> nat
    decreases s.len(),
{
    if s.len() == 0 {
        0
    } else {
        digits_value(s.drop_last()) * 10 + digit_value(s.last())
    }
}

/// `u64::from_str` (radix 10): an optional `+` followed by at least one
/// digit, and nothing else; `None` where the text is not of that form or its
/// value does not fit in a `u64`.
pub open spec fn parse_u64(s: Seq<char>) -> Option<u64> {
    let t = if s.len() > 0 && s[0] == '+' {
        s.drop_first()
    } else {
        s
    };
    if t.len() > 0 && all_digits(t) && digits_value(t) <= u64::MAX {
        Some(digits_value(t) as u64)
    } else {
        None
    }
}

/// The pieces of `s` between non-digit characters
/// (`s.split(|c| !c.is_ascii_digit())`); always at least one piece.
pub open spec fn digit_groups(s: Seq<char>) -> Seq<Seq<char>>
    decreases s.len(),
{
    if s.len() == 0 {
        seq![Seq::<char>::empty()]
    } else {
        let prev = digit_groups(s.drop_last());
        if !is_digit(s.last()) {
            prev.push(Seq::<char>::empty())
        } else {
            prev.update(prev.len() - 1, prev.last().push(s.last()))
        }
    }
}

/// The pieces that parse as `u64`, as numbers, in order
/// (`filter_map(|s| s.parse::<u64>().ok())`).
pub open spec fn parsed_groups(gs: Seq<Seq<char>>) -> Seq<u64>
    decreases gs.len(),
{
    if gs.len() == 0 {
        Seq::<u64>::empty()
    } else {
        let rest = parsed_groups(gs.drop_last());
        match parse_u64(gs.last()) {
            Some(x) => rest.push(x),
            None => rest,
        }
    }
}

/// The numeric components of a version string: every maximal run of digits
/// whose value fits in a `u64`, in order.
pub open spec fn numeric_components(s: Seq<char>) -> Seq<u64> {
    parsed_groups(digit_groups(s))
}

/// The part of `v` before its first `+`.
pub open spec fn before_build(v: Seq<char>) -> Seq<char> {
    split(v, '+')[0]
}

/// The key by which versions are ordered: the numeric components of the part
/// before `+` (build metadata does not take part in precedence).
pub open spec fn spec_version_key(v: Seq<char>) -> Seq<u64> {
    numeric_components(before_build(v))
}

/// Lexicographic order of keys, as `Vec<u64>` orders them: the first
/// differing component decides, and a proper prefix comes first.
pub open spec fn key_lt(a: Seq<u64>, b: Seq<u64>) -> bool
    decreases a.len(),
{
    if a.len() == 0 {
        b.len() > 0
    } else if b.len() == 0 {
        false
    } else if a[0] != b[0] {
        a[0] < b[0]
    } else {
        key_lt(a.drop_first(), b.drop_first())
    }
}

/// `query` selects `full` component-wise: it is equal to it, or its
/// `.`-separated components are a leading run of those of `full`
/// (`21` selects `21.0.5`, `2` does not select `21`).
pub open spec fn spec_matches_componentwise(full: Seq<char>, query: Seq<char>) -> bool {
    let q = split(query, '.');
    let f = split(full, '.');
    full == query || (q.len() <= f.len() && forall|i: int| 0 <= i < q.len() ==> q[i] == f[i])
}

/// `query` selects an installed JDK by its folder name or by its version.
pub open spec fn spec_version_matches(dir_name: Seq<char>, version: Seq<char>, query: Seq<char>) -> bool {
    spec_matches_componentwise(dir_name, query) || spec_matches_componentwise(version, query)
}

/// `latest` is a strictly newer version than `current`.
pub open spec fn newer(latest: Seq<char>, current: Seq<char>) -> bool {
    key_lt(numeric_components(current), numeric_components(latest))
}

// ---------------------------------------------------------------------------
// Lemmas.
// ---------------------------------------------------------------------------

proof fn lemma_digit_groups_nonempty(s: Seq<char>)
    ensures
        digit_groups(s).len() >= 1,
    decreases s.len(),
{
    if s.len() > 0 {
        lemma_digit_groups_nonempty(s.drop_last());
    }
}

/// The first piece of `split` is the text before the first separator.
pub proof fn lemma_split_first(s: Seq<char>, sep: char, j: int)
    requires
        0 <= j <= s.len(),
        !s.take(j).contains(sep),
        j == s.len() || s[j] == sep,
    ensures
        split(s, sep)[0] == s.take(j),
        split(s, sep).len() == 1 <==> j == s.len(),
    decreases s.len(),
{
    lemma_split_nonempty(s, sep);
    if s.len() > 0 {
        let t = s.drop_last();
        lemma_split_nonempty(t, sep);
        if j == s.len() {
            assert(s.take(j) == s);
            assert(!t.take(j - 1).contains(sep)) by {
                if t.take(j - 1).contains(sep) {
                    let tt = t.take(j - 1);
                    let k = choose|k: int| 0 <= k < tt.len() && #[trigger] tt[k] == sep;
                    assert(s.take(j)[k] == sep);
                }
            }
            assert(t.take(j - 1) == t);
            lemma_split_first(t, sep, j - 1);
            assert(s.last() == s[j - 1]);
            assert(s.last() != sep) by {
                assert(s.take(j)[j - 1] == s.last());
            }
            assert(t.push(s.last()) == s);
        } else {
            assert(t.take(j) == s.take(j));
            if j < t.len() {
                assert(t[j] == s[j]);
            }
            lemma_split_first(t, sep, j);
            if j < t.len() {
                assert(split(t, sep).len() != 1);
            } else {
                assert(s.last() == s[j]);
            }
        }
    } else {
        assert(s.take(j) == s);
    }
}

/// `key_lt` is irreflexive.
pub proof fn lemma_key_lt_irreflexive(a: Seq<u64>)
    ensures
        !key_lt(a, a),
    decreases a.len(),
{
    if a.len() > 0 {
        lemma_key_lt_irreflexive(a.drop_first());
    }
}

/// `key_lt` is transitive.
pub proof fn lemma_key_lt_transitive(a: Seq<u64>, b: Seq<u64>, c: Seq<u64>)
    requires
        key_lt(a, b),
        key_lt(b, c),
    ensures
        key_lt(a, c),
    decreases a.len(),
{
    if a.len() > 0 && b.len() > 0 && c.len() > 0 && a[0] == b[0] && b[0] == c[0] {
        lemma_key_lt_transitive(a.drop_first(), b.drop_first(), c.drop_first());
    }
}

/// Any two keys are equal or ordered one way.
pub proof fn lemma_key_lt_total(a: Seq<u64>, b: Seq<u64>)
    ensures
        key_lt(a, b) || key_lt(b, a) || a == b,
    decreases a.len(),
{
    if a.len() > 0 && b.len() > 0 && a[0] == b[0] {
        lemma_key_lt_total(a.drop_first(), b.drop_first());
        if a.drop_first() == b.drop_first() {
            assert(a == seq![a[0]] + a.drop_first());
            assert(b == seq![b[0]] + b.drop_first());
        }
    } else if a.len() == 0 && b.len() == 0 {
        assert(a == b);
    }
}

// ---------------------------------------------------------------------------
// Laws.
// ---------------------------------------------------------------------------

/// Build metadata does not affect a version's key: `21.0.11+10` and
/// `21.0.11+11` order equal, and both equal `21.0.11`.
pub proof fn lemma_build_metadata_ignored(v: Seq<char>, build: Seq<char>)
    requires
        !v.contains('+'),
    ensures
        spec_version_key(v + seq!['+'] + build) == spec_version_key(v),
{
    let s = v + seq!['+'] + build;
    assert(s.take(v.len() as int) == v);
    assert(s[v.len() as int] == '+');
    lemma_split_first(s, '+', v.len() as int);
    assert(v.take(v.len() as int) == v);
    lemma_split_first(v, '+', v.len() as int);
}

/// Newer is a strict order: no version is newer than itself, and of two
/// versions at most one is newer than the other.
pub proof fn lemma_newer_strict(a: Seq<char>, b: Seq<char>)
    ensures
        !newer(a, a),
        !(newer(a, b) && newer(b, a)),
{
    lemma_key_lt_irreflexive(numeric_components(a));
    if newer(a, b) && newer(b, a) {
        lemma_key_lt_transitive(numeric_components(a), numeric_components(b), numeric_components(a));
        lemma_key_lt_irreflexive(numeric_components(a));
    }
}

/// Newer is transitive.
pub proof fn lemma_newer_transitive(a: Seq<char>, b: Seq<char>, c: Seq<char>)
    requires
        newer(a, b),
        newer(b, c),
    ensures
        newer(a, c),
{
    lemma_key_lt_transitive(numeric_components(c), numeric_components(b), numeric_components(a));
}

proof fn lemma_digit_groups_append_digits(y: Seq<char>, g: Seq<char>)
    requires
        all_digits(g),
    ensures
        digit_groups(y + g) == digit_groups(y).update(
            digit_groups(y).len() - 1,
            digit_groups(y).last() + g,
        ),
    decreases g.len(),
{
    lemma_digit_groups_nonempty(y);
    if g.len() == 0 {
        assert(y + g == y);
        assert(digit_groups(y).last() + g == digit_groups(y).last());
        assert(digit_groups(y).update(digit_groups(y).len() - 1, digit_groups(y).last())
            =~= digit_groups(y));
    } else {
        let g1 = g.drop_last();
        assert forall|i: int| 0 <= i < g1.len() implies is_digit(#[trigger] g1[i]) by {
            assert(g1[i] == g[i]);
        }
        lemma_digit_groups_append_digits(y, g1);
        assert(is_digit(g[g.len() - 1]));
        assert((y + g).drop_last() == y + g1);
        assert((y + g).last() == g.last());
        let prev = digit_groups(y + g1);
        assert(prev.len() == digit_groups(y).len());
        assert(prev.last() == digit_groups(y).last() + g1);
        assert(digit_groups(y).last() + g1.push(g.last()) == digit_groups(y).last() + g);
        assert(prev.update(prev.len() - 1, prev.last().push(g.last())) =~= digit_groups(y).update(
            digit_groups(y).len() - 1,
            digit_groups(y).last() + g,
        ));
    }
}

proof fn lemma_digit_groups_dotted(gs: Seq<Seq<char>>)
    requires
        gs.len() >= 1,
        forall|k: int| 0 <= k < gs.len() ==> all_digits(#[trigger] gs[k]),
    ensures
        digit_groups(join(gs, '.')) == gs,
    decreases gs.len(),
{
    let z = Seq::<char>::empty();
    if gs.len() == 1 {
        lemma_digit_groups_append_digits(z, gs[0]);
        assert(z + gs[0] == gs[0]);
        assert(digit_groups(z) == seq![z]);
        assert(seq![z].update(0, z + gs[0]) =~= gs);
    } else {
        let init = gs.drop_last();
        assert forall|k: int| 0 <= k < init.len() implies all_digits(#[trigger] init[k]) by {
            assert(init[k] == gs[k]);
        }
        lemma_digit_groups_dotted(init);
        let x = join(init, '.');
        assert(join(gs, '.') == x.push('.') + gs.last());
        assert(x.push('.').drop_last() == x);
        assert(!is_digit('.'));
        assert(digit_groups(x.push('.')) == init.push(z));
        assert(all_digits(gs[gs.len() - 1]));
        lemma_digit_groups_append_digits(x.push('.'), gs.last());
        assert(z + gs.last() == gs.last());
        assert(init.push(z).update(init.len() as int, z + gs.last()) =~= gs);
    }
}

proof fn lemma_parsed_groups_digits(gs: Seq<Seq<char>>)
    requires
        forall|k: int|
            0 <= k < gs.len() ==> (#[trigger] gs[k]).len() > 0 && all_digits(gs[k])
                && digits_value(gs[k]) <= u64::MAX,
    ensures
        parsed_groups(gs) == gs.map_values(|g: Seq<char>| digits_value(g) as u64),
    decreases gs.len(),
{
    if gs.len() > 0 {
        let init = gs.drop_last();
        assert forall|k: int| 0 <= k < init.len() implies (#[trigger] init[k]).len() > 0 && all_digits(
            init[k],
        ) && digits_value(init[k]) <= u64::MAX by {
            assert(init[k] == gs[k]);
        }
        lemma_parsed_groups_digits(init);
        let g = gs.last();
        assert(g == gs[gs.len() - 1]);
        assert(is_digit(g[0]));
        assert(parse_u64(g) == Some(digits_value(g) as u64));
        assert(gs.map_values(|g: Seq<char>| digits_value(g) as u64) =~= init.map_values(
            |g: Seq<char>| digits_value(g) as u64,
        ).push(digits_value(g) as u64));
    }
}

/// The numeric components of a version written as digit groups separated
/// by `.` are the decimal values of the groups, in order, every one of them
/// (`21.0.5` has the components 21, 0 and 5; `1.0.0` has 1, 0 and 0).
pub proof fn lemma_numeric_components_of_dotted(gs: Seq<Seq<char>>)
    requires
        gs.len() >= 1,
        forall|k: int|
            0 <= k < gs.len() ==> (#[trigger] gs[k]).len() > 0 && all_digits(gs[k])
                && digits_value(gs[k]) <= u64::MAX,
    ensures
        numeric_components(join(gs, '.')) == gs.map_values(|g: Seq<char>| digits_value(g) as u64),
{
    assert forall|k: int| 0 <= k < gs.len() implies all_digits(#[trigger] gs[k]) by {}
    lemma_digit_groups_dotted(gs);
    lemma_parsed_groups_digits(gs);
}

/// `a` orders before `b` at position `i`: they agree on their first `i`
/// components, and there `b` has the larger component, or `a` has ended
/// while `b` goes on.
pub open spec fn lex_before_at(a: Seq<u64>, b: Seq<u64>, i: int) -> bool {
    &&& 0 <= i <= a.len()
    &&& i <= b.len()
    &&& a.take(i) == b.take(i)
    &&& ((i < a.len() && i < b.len() && a[i] < b[i]) || (i == a.len() && i < b.len()))
}

proof fn lemma_key_lt_lex(a: Seq<u64>, b: Seq<u64>)
    ensures
        key_lt(a, b) <==> exists|i: int| lex_before_at(a, b, i),
    decreases a.len(),
{
    if a.len() == 0 {
        if b.len() > 0 {
            assert(a.take(0) =~= b.take(0));
            assert(lex_before_at(a, b, 0));
        }
    } else if b.len() == 0 {
    } else if a[0] != b[0] {
        if a[0] < b[0] {
            assert(a.take(0) =~= b.take(0));
            assert(lex_before_at(a, b, 0));
        } else {
            assert forall|i: int| !lex_before_at(a, b, i) by {
                if 0 < i && i <= a.len() && i <= b.len() && a.take(i) == b.take(i) {
                    assert(a.take(i)[0] == b.take(i)[0]);
                }
            }
        }
    } else {
        let a1 = a.drop_first();
        let b1 = b.drop_first();
        lemma_key_lt_lex(a1, b1);
        if key_lt(a1, b1) {
            let j = choose|j: int| lex_before_at(a1, b1, j);
            assert(a.take(j + 1) =~= seq![a[0]] + a1.take(j));
            assert(b.take(j + 1) =~= seq![b[0]] + b1.take(j));
            assert(lex_before_at(a, b, j + 1));
        } else {
            assert forall|i: int| !lex_before_at(a, b, i) by {
                if lex_before_at(a, b, i) && i > 0 {
                    assert(a1.take(i - 1) =~= a.take(i).drop_first());
                    assert(b1.take(i - 1) =~= b.take(i).drop_first());
                    assert(lex_before_at(a1, b1, i - 1));
                }
            }
        }
    }
}

/// Newer is the order of the numeric components read left to right from
/// the first: `latest` is newer than `current` exactly when, at the first
/// position where they differ, `latest` has the larger component, or
/// `current` has no more components while `latest` has (`1.0.0` is newer
/// than `0.9.3`, `21.0.5` than `21.0`, and `21.0.5` is not newer than
/// `21.0.5`).
pub proof fn lemma_newer_is_lexicographic(latest: Seq<char>, current: Seq<char>)
    ensures
        newer(latest, current) <==> exists|i: int|
            #![trigger numeric_components(current).take(i)]
            0 <= i <= numeric_components(current).len() && i <= numeric_components(latest).len()
                && numeric_components(current).take(i) == numeric_components(latest).take(i) && ((i
                < numeric_components(current).len() && i < numeric_components(latest).len()
                && numeric_components(current)[i] < numeric_components(latest)[i]) || (i
                == numeric_components(current).len() && i < numeric_components(latest).len())),
{
    let l = numeric_components(latest);
    let c = numeric_components(current);
    lemma_key_lt_lex(c, l);
    if newer(latest, current) {
        let i = choose|i: int| lex_before_at(c, l, i);
        assert(c.take(i) == l.take(i));
    } else {
        assert forall|i: int|
            !(0 <= i <= c.len() && i <= l.len() && #[trigger] c.take(i) == l.take(i) && ((i < c.len()
                && i < l.len() && c[i] < l[i]) || (i == c.len() && i < l.len()))) by {
            if 0 <= i <= c.len() && i <= l.len() && c.take(i) == l.take(i) && ((i < c.len() && i
                < l.len() && c[i] < l[i]) || (i == c.len() && i < l.len())) {
                assert(lex_before_at(c, l, i));
            }
        }
    }
}

/// The first components decide when they differ: a larger first component
/// is newer, a smaller one is not.
pub proof fn lemma_newer_first_component(latest: Seq<char>, current: Seq<char>)
    requires
        numeric_components(latest).len() > 0,
        numeric_components(current).len() > 0,
    ensures
        numeric_components(latest)[0] > numeric_components(current)[0] ==> newer(latest, current),
        numeric_components(latest)[0] < numeric_components(current)[0] ==> !newer(latest, current),
{
}

/// A query selects a version exactly when every `.`-separated component of
/// the query equals the version's component at the same position (so a
/// query with more components than the version selects nothing, and
/// `21.0.4` does not select `21.0.5`).
pub proof fn lemma_match_is_componentwise(full: Seq<char>, query: Seq<char>)
    ensures
        spec_matches_componentwise(full, query) <==> (split(query, '.').len() <= split(
            full,
            '.',
        ).len() && forall|i: int|
            0 <= i < split(query, '.').len() ==> split(query, '.')[i] == split(full, '.')[i]),
{
}

/// A query with as many components as the version selects it only if it is
/// the version itself: of `21.0.4` and `21.0.5`, `21.0.4` selects only
/// `21.0.4`.
pub proof fn lemma_full_query_selects_only_itself(full: Seq<char>, query: Seq<char>)
    requires
        split(query, '.').len() == split(full, '.').len(),
        spec_matches_componentwise(full, query),
    ensures
        full == query,
{
    lemma_match_is_componentwise(full, query);
    assert(split(query, '.') =~= split(full, '.'));
    lemma_join_split(full, '.');
    lemma_join_split(query, '.');
}

/// Every leading run of a version's components selects it: `21` and `21.0`
/// both select `21.0.5`.
pub proof fn lemma_component_prefix_matches(full: Seq<char>, k: int)
    requires
        1 <= k <= split(full, '.').len(),
    ensures
        spec_matches_componentwise(full, join(split(full, '.').take(k), '.')),
{
    let f = split(full, '.');
    let q = f.take(k);
    lemma_split_no_sep(full, '.');
    assert forall|i: int| 0 <= i < q.len() implies !(#[trigger] q[i]).contains('.') by {
        assert(q[i] == f[i]);
    }
    lemma_split_join(q, '.');
}

// ---------------------------------------------------------------------------
// Executable functions.
// ---------------------------------------------------------------------------

/// `u64::from_str` on a character vector.
pub fn parse_u64_chars(s: &[char]) -> (r: Option<u64>)
    ensures
        r == parse_u64(s@),
{
    let start: usize = if s.len() > 0 && s[0] == '+' {
        1
    } else {
        0
    };
    let ghost t = s@.skip(start as int);
    assert(t == (if s@.len() > 0 && s@[0] == '+' {
        s@.drop_first()
    } else {
        s@
    }));
    if start == s.len() {
        return None;
    }
    let mut i: usize = start;
    let mut acc: u64 = 0;
    while i < s.len()
        invariant
            start <= i <= s.len(),
            t == s@.skip(start as int),
            t == (if s@.len() > 0 && s@[0] == '+' {
                s@.drop_first()
            } else {
                s@
            }),
            all_digits(s@.subrange(start as int, i as int)),
            acc == digits_value(s@.subrange(start as int, i as int)),
        decreases s.len() - i,
    {
        let c = s[i];
        let ghost prefix = s@.subrange(start as int, i as int);
        let ghost next = s@.subrange(start as int, i + 1);
        assert(next.drop_last() == prefix);
        assert(next.last() == c);
        if !('0' <= c && c <= '9') {
            assert(t[i - start] == c);
            assert(!all_digits(t)) by {
                assert(!is_digit(t[i - start]));
            }
            assert(parse_u64(s@).is_none());
            return None;
        }
        let d = (c as u32 - '0' as u32) as u64;
        match acc.checked_mul(10) {
            Some(m) => match m.checked_add(d) {
                Some(x) => {
                    acc = x;
                },
                None => {
                    proof {
                        assert(t.take((i + 1 - start) as int) == next);
                        assert(digits_value(next) == digits_value(prefix) * 10 + digit_value(c));
                        assert(digits_value(next) > u64::MAX);
                        if all_digits(t) {
                            lemma_digits_value_prefix(t, (i + 1 - start) as int);
                        }
                        assert(parse_u64(s@).is_none());
                    }
                    return None;
                },
            },
            None => {
                proof {
                    assert(t.take((i + 1 - start) as int) == next);
                    if all_digits(t) {
                        lemma_digits_value_prefix(t, (i + 1 - start) as int);
                    }
                }
                return None;
            },
        }
        proof {
            assert forall|k: int| 0 <= k < next.len() implies is_digit(#[trigger] next[k]) by {
                if k < prefix.len() {
                    assert(next[k] == prefix[k]);
                }
            }
        }
        i += 1;
    }
    assert(s@.subrange(start as int, s.len() as int) == t);
    Some(acc)
}

/// The value of a prefix of a digit string is no more than that of the
/// whole.
proof fn lemma_digits_value_prefix(t: Seq<char>, n: int)
    requires
        0 <= n <= t.len(),
        all_digits(t),
    ensures
        digits_value(t.take(n)) <= digits_value(t),
    decreases t.len() - n,
{
    if n < t.len() {
        lemma_digits_value_prefix(t, n + 1);
        assert(t.take(n + 1).drop_last() == t.take(n));
    } else {
        assert(t.take(n) == t);
    }
}

/// The numeric components of a character vector.
pub fn numeric_components_chars(v: &[char]) -> (r: Vec<u64>)
    ensures
        r@ == numeric_components(v@),
{
    let mut out: Vec<u64> = Vec::new();
    let mut cur: u64 = 0;
    let mut cur_len: usize = 0;
    let mut overflow = false;
    let mut i: usize = 0;
    assert(v@.take(0) == Seq::<char>::empty());
    while i < v.len()
        invariant
            i <= v.len(),
            cur_len <= i,
            ({
                let gs = digit_groups(v@.take(i as int));
                &&& gs.len() >= 1
                &&& out@ == parsed_groups(gs.drop_last())
                &&& gs.last().len() == cur_len
                &&& all_digits(gs.last())
                &&& (overflow ==> digits_value(gs.last()) > u64::MAX)
                &&& (!overflow ==> cur == digits_value(gs.last()))
            }),
        decreases v.len() - i,
    {
        let c = v[i];
        let ghost gs = digit_groups(v@.take(i as int));
        proof {
            assert(v@.take(i + 1).drop_last() == v@.take(i as int));
            assert(v@.take(i + 1).last() == c);
            lemma_digit_groups_nonempty(v@.take(i + 1));
        }
        if '0' <= c && c <= '9' {
            let d = (c as u32 - '0' as u32) as u64;
            let ghost g2 = gs.last().push(c);
            assert(g2.drop_last() == gs.last());
            if !overflow {
                match cur.checked_mul(10) {
                    Some(m) => match m.checked_add(d) {
                        Some(x) => {
                            cur = x;
                        },
                        None => {
                            overflow = true;
                        },
                    },
                    None => {
                        overflow = true;
                    },
                }
            }
            cur_len = cur_len + 1;
            proof {
                let gs2 = digit_groups(v@.take(i + 1));
                assert(gs2 == gs.update(gs.len() - 1, g2));
                assert(gs2.drop_last() == gs.drop_last());
                assert(gs2.last() == g2);
                assert forall|k: int| 0 <= k < g2.len() implies is_digit(#[trigger] g2[k]) by {
                    if k < gs.last().len() {
                        assert(g2[k] == gs.last()[k]);
                    }
                }
            }
        } else {
            proof {
                let gs2 = digit_groups(v@.take(i + 1));
                assert(gs2 == gs.push(Seq::<char>::empty()));
                assert(gs2.drop_last() == gs);
                assert(gs == gs.drop_last().push(gs.last()));
                let last = gs.last();
                assert(gs.drop_last().push(last).drop_last() == gs.drop_last());
                assert(parsed_groups(gs) == (match parse_u64(last) {
                    Some(x) => parsed_groups(gs.drop_last()).push(x),
                    None => parsed_groups(gs.drop_last()),
                }));
                if last.len() > 0 {
                    assert(last[0] != '+') by {
                        assert(is_digit(last[0]));
                    }
                }
            }
            if cur_len > 0 && !overflow {
                out.push(cur);
            }
            cur = 0;
            cur_len = 0;
            overflow = false;
            assert(digits_value(Seq::<char>::empty()) == 0);
        }
        i += 1;
    }
    proof {
        let gs = digit_groups(v@.take(i as int));
        assert(v@.take(i as int) == v@);
        assert(gs == gs.drop_last().push(gs.last()));
        let last = gs.last();
        assert(gs.drop_last().push(last).drop_last() == gs.drop_last());
        if last.len() > 0 {
            assert(last[0] != '+') by {
                assert(is_digit(last[0]));
            }
        }
    }
    if cur_len > 0 && !overflow {
        out.push(cur);
    }
    out
}

/// The ordering key of a version string.
pub fn version_key(v: &str) -> (r: Vec<u64>)
    ensures
        r@ == spec_version_key(v@),
{
    let cs = chars_of(v);
    let j = position_of(&cs, '+');
    proof {
        lemma_split_first(cs@, '+', j as int);
    }
    let head = sub_chars(&cs, 0, j);
    assert(head@ == cs@.take(j as int));
    numeric_components_chars(&head)
}

/// Whether key `a` orders strictly before key `b`.
pub fn key_less(a: &[u64], b: &[u64]) -> (r: bool)
    ensures
        r == key_lt(a@, b@),
{
    let mut i: usize = 0;
    assert(a@.skip(0) == a@);
    assert(b@.skip(0) == b@);
    while i < a.len() && i < b.len() && a[i] == b[i]
        invariant
            i <= a.len(),
            i <= b.len(),
            key_lt(a@, b@) == key_lt(a@.skip(i as int), b@.skip(i as int)),
        decreases a.len() - i,
    {
        proof {
            assert(a@.skip(i as int).drop_first() == a@.skip(i + 1));
            assert(b@.skip(i as int).drop_first() == b@.skip(i + 1));
        }
        i += 1;
    }
    proof {
        if i < a.len() {
            assert(a@.skip(i as int)[0] == a@[i as int]);
        }
        if i < b.len() {
            assert(b@.skip(i as int)[0] == b@[i as int]);
        }
    }
    if i == a.len() {
        i < b.len()
    } else if i == b.len() {
        false
    } else {
        a[i] < b[i]
    }
}

/// The numeric components of a version, left to right.
pub fn parse_version(v: &str) -> (r: Vec<u64>)
    ensures
        r@ == numeric_components(v@),
{
    let cs = chars_of(v);
    numeric_components_chars(&cs)
}

/// Whether `latest` is a strictly newer version than `current`; an equal
/// version is not newer.
pub fn is_newer(latest: &str, current: &str) -> (r: bool)
    ensures
        r == newer(latest@, current@),
        r <==> exists|i: int|
            lex_before_at(numeric_components(current@), numeric_components(latest@), i),
{
    let l = parse_version(latest);
    let c = parse_version(current);
    proof {
        lemma_key_lt_lex(c@, l@);
    }
    key_less(&c, &l)
}

/// Whether `query` selects `full` component-wise.
pub fn matches_componentwise(full: &str, query: &str) -> (r: bool)
    ensures
        r == spec_matches_componentwise(full@, query@),
        r <==> (split(query@, '.').len() <= split(full@, '.').len() && forall|i: int|
            0 <= i < split(query@, '.').len() ==> split(query@, '.')[i] == split(full@, '.')[i]),
{
    proof {
        lemma_match_is_componentwise(full@, query@);
    }
    let f = chars_of(full);
    let q = chars_of(query);
    if chars_eq(&f, &q) {
        return true;
    }
    let qp = split_chars(&q, '.');
    let fp = split_chars(&f, '.');
    assert(views(qp@).len() == qp@.len());
    assert(views(fp@).len() == fp@.len());
    if qp.len() > fp.len() {
        return false;
    }
    let mut i: usize = 0;
    while i < qp.len()
        invariant
            qp.len() <= fp.len(),
            i <= qp.len(),
            f@ == full@,
            q@ == query@,
            f@ != q@,
            views(qp@) == split(q@, '.'),
            views(fp@) == split(f@, '.'),
            forall|k: int| 0 <= k < i ==> split(q@, '.')[k] == split(f@, '.')[k],
        decreases qp.len() - i,
    {
        if !chars_eq(&qp[i], &fp[i]) {
            assert(split(q@, '.')[i as int] == qp@[i as int]@);
            assert(split(f@, '.')[i as int] == fp@[i as int]@);
            assert(split(q@, '.')[i as int] != split(f@, '.')[i as int]);
            assert(!spec_matches_componentwise(f@, q@));
            return false;
        }
        assert(split(q@, '.')[i as int] == qp@[i as int]@);
        assert(split(f@, '.')[i as int] == fp@[i as int]@);
        i += 1;
    }
    true
}

/// Whether `query` selects the JDK with this folder name and version.
pub fn version_matches(dir_name: &str, version: &str, query: &str) -> (r: bool)
    ensures
        r == spec_version_matches(dir_name@, version@, query@),
{
    matches_componentwise(dir_name, query) || matches_componentwise(version, query)
}

} // verus!
