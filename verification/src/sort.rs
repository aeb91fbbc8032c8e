//! A stable insertion sort over any type whose views carry a strict weak
//! order.

use vstd::prelude::*;
use vstd::seq_lib::{to_multiset_insert, to_multiset_remove};

verus! {

/// Types whose values are ordered by a strict weak order on their views.
pub trait Ordered: View + Sized {
    /// `a` orders strictly before `b`.
    spec fn before(a: Self::V, b: Self::V) -> bool;

    proof fn lemma_before_irreflexive(a: Self::V)
        ensures
            !Self::before(a, a),
    ;

    proof fn lemma_before_transitive(a: Self::V, b: Self::V, c: Self::V)
        requires
            Self::before(a, b),
            Self::before(b, c),
        ensures
            Self::before(a, c),
    ;

    /// Whatever lies strictly between two values in the order is either after
    /// the first or before the second.
    proof fn lemma_before_connected(a: Self::V, b: Self::V, c: Self::V)
        requires
            Self::before(a, c),
        ensures
            Self::before(a, b) || Self::before(b, c),
    ;

    /// Whether `self` orders strictly before `other`.
    fn precedes(&self, other: &Self) -> (r: bool)
        ensures
            r == Self::before(self@, other@),
    ;
}

/// The views of a sequence of values.
pub open spec fn view_seq<T: View>(s: Seq<T>) -> Seq<T::V> {
    s.map_values(|x: T| x@)
}

/// No later element orders strictly before an earlier one.
pub open spec fn is_sorted<T: Ordered>(s: Seq<T::V>) -> bool {
    forall|i: int, j: int| 0 <= i < j < s.len() ==> !T::before(#[trigger] s[j], #[trigger] s[i])
}

/// Neither of two values orders before the other.
pub open spec fn ties<T: Ordered>(a: T::V, b: T::V) -> bool {
    !T::before(a, b) && !T::before(b, a)
}

/// `p` maps the positions of `out` one-to-one onto those of `input`, with
/// equal values, and keeps tied values in their input order.
pub open spec fn is_stable_arrangement<T: Ordered>(out: Seq<T::V>, input: Seq<T::V>, p: Seq<int>) -> bool {
    &&& p.len() == out.len() == input.len()
    &&& forall|k: int| 0 <= k < p.len() ==> 0 <= #[trigger] p[k] < input.len()
    &&& forall|a: int, b: int| 0 <= a < b < p.len() ==> #[trigger] p[a] != #[trigger] p[b]
    &&& forall|k: int| 0 <= k < p.len() ==> #[trigger] out[k] == input[p[k]]
    &&& forall|a: int, b: int|
        0 <= a < b < p.len() && ties::<T>(out[a], out[b]) ==> #[trigger] p[a] < #[trigger] p[b]
}

/// `out` is `input` rearranged, with tied values kept in their input order.
pub open spec fn is_stable_permutation<T: Ordered>(out: Seq<T::V>, input: Seq<T::V>) -> bool {
    exists|p: Seq<int>| is_stable_arrangement::<T>(out, input, p)
}

pub proof fn lemma_view_seq_insert<T: View>(s: Seq<T>, k: int, x: T)
    requires
        0 <= k <= s.len(),
    ensures
        view_seq(s.insert(k, x)) == view_seq(s).insert(k, x@),
{
    assert(view_seq(s.insert(k, x)) =~= view_seq(s).insert(k, x@));
}

pub proof fn lemma_view_seq_remove<T: View>(s: Seq<T>, k: int)
    requires
        0 <= k < s.len(),
    ensures
        view_seq(s.remove(k)) == view_seq(s).remove(k),
{
    assert(view_seq(s.remove(k)) =~= view_seq(s).remove(k));
}

/// Sorts `v` by `T::before`, keeping tied elements in their input order. The
/// result holds the same values.
pub fn sort<T: Ordered>(v: Vec<T>) -> (out: Vec<T>)
    ensures
        view_seq(out@).to_multiset() == view_seq(v@).to_multiset(),
        is_sorted::<T>(view_seq(out@)),
        is_stable_permutation::<T>(view_seq(out@), view_seq(v@)),
{
    broadcast use vstd::multiset::group_multiset_axioms;

    let ghost input = view_seq(v@);
    let mut rest = v;
    let mut out: Vec<T> = Vec::new();
    let ghost orig = view_seq(rest@).to_multiset();
    let ghost mut perm: Seq<int> = Seq::empty();
    let mut taken: usize = 0;
    let n = rest.len();
    assert(view_seq(out@).to_multiset() =~= vstd::multiset::Multiset::empty()) by {
        assert(view_seq(out@) =~= Seq::<T::V>::empty());
        vstd::seq_lib::to_multiset_len(view_seq(out@));
    }
    assert(view_seq(rest@) == input.skip(0));
    while rest.len() > 0
        invariant
            input.len() == n,
            taken + rest@.len() == n,
            view_seq(rest@) == input.skip(taken as int),
            view_seq(out@).to_multiset().add(view_seq(rest@).to_multiset()) == orig,
            is_sorted::<T>(view_seq(out@)),
            perm.len() == out@.len() == taken,
            forall|k: int| 0 <= k < perm.len() ==> 0 <= #[trigger] perm[k] < taken,
            forall|a: int, b: int| 0 <= a < b < perm.len() ==> #[trigger] perm[a] != #[trigger] perm[b],
            forall|k: int| 0 <= k < perm.len() ==> #[trigger] view_seq(out@)[k] == input[perm[k]],
            forall|a: int, b: int|
                0 <= a < b < perm.len() && ties::<T>(view_seq(out@)[a], view_seq(out@)[b])
                    ==> #[trigger] perm[a] < #[trigger] perm[b],
        decreases rest.len(),
    {
        let ghost before_rest = rest@;
        let x = rest.remove(0);
        proof {
            lemma_view_seq_remove(before_rest, 0);
            to_multiset_remove(view_seq(before_rest), 0);
            assert(view_seq(before_rest)[0] == input[taken as int]);
            assert(view_seq(rest@) =~= input.skip(taken + 1));
        }
        let mut k: usize = 0;
        while k < out.len() && !x.precedes(&out[k])
            invariant
                k <= out.len(),
                rest@ == before_rest.remove(0),
                before_rest.len() > 0,
                x == before_rest[0],
                view_seq(out@).to_multiset().add(view_seq(before_rest).to_multiset()) == orig,
                is_sorted::<T>(view_seq(out@)),
                forall|m: int| 0 <= m < k ==> !T::before(x@, #[trigger] view_seq(out@)[m]),
            decreases out.len() - k,
        {
            k += 1;
        }
        let ghost old_out = out@;
        let ghost xv = x@;
        let ghost old_perm = perm;
        out.insert(k, x);
        proof {
            perm = old_perm.insert(k as int, taken as int);
            lemma_view_seq_insert(old_out, k as int, x);
            to_multiset_insert(view_seq(old_out), k as int, xv);
            let s = view_seq(out@);
            let o = view_seq(old_out);
            assert forall|i: int, j: int| 0 <= i < j < s.len() implies !T::before(
                #[trigger] s[j],
                #[trigger] s[i],
            ) by {
                if j < k {
                    assert(s[i] == o[i] && s[j] == o[j]);
                } else if j == k {
                    assert(s[i] == o[i]);
                    assert(s[j] == xv);
                } else if i > k {
                    assert(s[i] == o[i - 1] && s[j] == o[j - 1]);
                } else if i == k {
                    assert(s[i] == xv);
                    assert(s[j] == o[j - 1]);
                    assert(T::before(xv, o[k as int]));
                    if T::before(o[j - 1], xv) {
                        T::lemma_before_transitive(o[j - 1], xv, o[k as int]);
                        if j - 1 == k {
                            T::lemma_before_irreflexive(o[k as int]);
                        }
                    }
                } else {
                    assert(s[i] == o[i] && s[j] == o[j - 1]);
                }
            }
            assert forall|m: int| 0 <= m < perm.len() implies 0 <= #[trigger] perm[m] < taken
                + 1 by {
                if m < k {
                    assert(perm[m] == old_perm[m]);
                } else if m > k {
                    assert(perm[m] == old_perm[m - 1]);
                }
            }
            assert forall|a: int, b: int| 0 <= a < b < perm.len() implies #[trigger] perm[a]
                != #[trigger] perm[b] by {
                if a < k && b < k {
                    assert(perm[a] == old_perm[a] && perm[b] == old_perm[b]);
                } else if a < k && b == k {
                    assert(perm[a] == old_perm[a]);
                } else if a < k {
                    assert(perm[a] == old_perm[a] && perm[b] == old_perm[b - 1]);
                } else if a == k {
                    assert(perm[b] == old_perm[b - 1]);
                } else {
                    assert(perm[a] == old_perm[a - 1] && perm[b] == old_perm[b - 1]);
                }
            }
            assert forall|m: int| 0 <= m < perm.len() implies #[trigger] view_seq(out@)[m]
                == input[perm[m]] by {
                if m < k {
                    assert(perm[m] == old_perm[m]);
                    assert(s[m] == o[m]);
                } else if m > k {
                    assert(perm[m] == old_perm[m - 1]);
                    assert(s[m] == o[m - 1]);
                } else {
                    assert(s[m] == xv);
                }
            }
            assert forall|a: int, b: int|
                0 <= a < b < perm.len() && ties::<T>(
                    view_seq(out@)[a],
                    view_seq(out@)[b],
                ) implies #[trigger] perm[a] < #[trigger] perm[b] by {
                if a < k && b < k {
                    assert(perm[a] == old_perm[a] && perm[b] == old_perm[b]);
                    assert(s[a] == o[a] && s[b] == o[b]);
                } else if a < k && b == k {
                    assert(perm[a] == old_perm[a]);
                } else if a < k {
                    assert(perm[a] == old_perm[a] && perm[b] == old_perm[b - 1]);
                    assert(s[a] == o[a] && s[b] == o[b - 1]);
                } else if a == k {
                    assert(s[a] == xv);
                    assert(s[b] == o[b - 1]);
                    assert(T::before(xv, o[k as int]));
                    if b - 1 == k {
                    } else {
                        T::lemma_before_connected(xv, o[b - 1], o[k as int]);
                    }
                } else {
                    assert(perm[a] == old_perm[a - 1] && perm[b] == old_perm[b - 1]);
                    assert(s[a] == o[a - 1] && s[b] == o[b - 1]);
                }
            }
            assert(view_seq(before_rest)[0] == xv);
            assert(view_seq(before_rest).contains(xv));
            vstd::seq_lib::to_multiset_contains(view_seq(before_rest), xv);
            assert(view_seq(out@).to_multiset().add(view_seq(rest@).to_multiset()) =~= orig);
        }
        taken += 1;
    }
    assert(view_seq(rest@) =~= Seq::<T::V>::empty());
    proof {
        vstd::seq_lib::to_multiset_len(view_seq(rest@));
        assert(is_stable_arrangement::<T>(view_seq(out@), input, perm));
    }
    assert(view_seq(out@).to_multiset().add(view_seq(rest@).to_multiset()) =~= view_seq(
        out@,
    ).to_multiset());
    out
}

} // verus!
