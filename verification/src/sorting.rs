//! Sorting of vectors whose elements carry a total order on their models.

use crate::text::{
    lemma_lex_le_antisymmetric, lemma_lex_le_connected, lemma_lex_le_reflexive,
    lemma_lex_le_transitive, lex_le, str_le,
};
use vstd::multiset::Multiset;
use vstd::prelude::*;
use vstd::relations::{sorted_by, total_ordering};
use vstd::seq_lib::{lemma_sorted_unique, to_multiset_insert};

verus! {

/// A type whose values are ordered through a model: `rank` gives the model of
/// a value and `rank_le` is a total order on models.
pub trait Ranked: Sized {
    type Rank;

    /// The model by which a value is ordered.
    spec fn rank(&self) -> Self::Rank;

    /// The order on models.
    spec fn rank_le(a: Self::Rank, b: Self::Rank) -> bool;

    /// `rank_le` is reflexive, antisymmetric, transitive and connected.
    proof fn lemma_rank_total()
        ensures
            forall|a: Self::Rank| #[trigger] Self::rank_le(a, a),
            forall|a: Self::Rank, b: Self::Rank|
                #[trigger] Self::rank_le(a, b) && #[trigger] Self::rank_le(b, a) ==> a == b,
            forall|a: Self::Rank, b: Self::Rank, c: Self::Rank|
                #[trigger] Self::rank_le(a, b) && #[trigger] Self::rank_le(b, c) ==> Self::rank_le(
                    a,
                    c,
                ),
            forall|a: Self::Rank, b: Self::Rank|
                #[trigger] Self::rank_le(a, b) || #[trigger] Self::rank_le(b, a),
    ;

    /// Whether `self` precedes or equals `other`.
    fn precedes(&self, other: &Self) -> (r: bool)
        ensures
            r == Self::rank_le(self.rank(), other.rank()),
    ;
}

/// `T::rank_le` as a relation value.
pub open spec fn rank_order<T: Ranked>() -> spec_fn(T::Rank, T::Rank) -> bool {
    |a: T::Rank, b: T::Rank| T::rank_le(a, b)
}

/// `T::rank_le` is a total order.
pub proof fn lemma_rank_order_total<T: Ranked>()
    ensures
        total_ordering(rank_order::<T>()),
{
    T::lemma_rank_total();
}

/// The models of the elements of `s`, in order.
pub open spec fn ranks<T: Ranked>(s: Seq<T>) -> Seq<T::Rank> {
    Seq::new(s.len(), |i: int| s[i].rank())
}

/// The ascending arrangement of `s` under `T::rank_le`.
pub open spec fn sorted_ranks<T: Ranked>(s: Seq<T::Rank>) -> Seq<T::Rank> {
    s.sort_by(rank_order::<T>())
}

impl Ranked for String {
    type Rank = Seq<char>;

    open spec fn rank(&self) -> Seq<char> {
        self@
    }

    open spec fn rank_le(a: Seq<char>, b: Seq<char>) -> bool {
        lex_le(a, b)
    }

    proof fn lemma_rank_total() {
        assert forall|a: Seq<char>| #[trigger] lex_le(a, a) by {
            lemma_lex_le_reflexive(a);
        }
        assert forall|a: Seq<char>, b: Seq<char>| #[trigger]
            lex_le(a, b) && #[trigger] lex_le(b, a) implies a == b by {
            lemma_lex_le_antisymmetric(a, b);
        }
        assert forall|a: Seq<char>, b: Seq<char>, c: Seq<char>| #[trigger]
            lex_le(a, b) && #[trigger] lex_le(b, c) implies lex_le(a, c) by {
            lemma_lex_le_transitive(a, b, c);
        }
        assert forall|a: Seq<char>, b: Seq<char>| #[trigger]
            lex_le(a, b) || #[trigger] lex_le(b, a) by {
            lemma_lex_le_connected(a, b);
        }
    }

    fn precedes(&self, other: &Self) -> (r: bool) {
        str_le(self.as_str(), other.as_str())
    }
}

/// The lexicographic order on strings as a relation value.
pub open spec fn lex_order() -> spec_fn(Seq<char>, Seq<char>) -> bool {
    rank_order::<String>()
}

/// A sequence is in ascending lexicographic order.
pub open spec fn lex_sorted(s: Seq<Seq<char>>) -> bool {
    sorted_by(s, lex_order())
}

/// The ascending lexicographic arrangement of `s`.
pub open spec fn lex_sort(s: Seq<Seq<char>>) -> Seq<Seq<char>> {
    s.sort_by(lex_order())
}

/// A sequence that is ascending under a total order and holds the same
/// elements as `s` is the sorted arrangement of `s`.
pub proof fn lemma_sorted_arrangement<T: Ranked>(r: Seq<T::Rank>, s: Seq<T::Rank>)
    requires
        sorted_by(r, rank_order::<T>()),
        r.to_multiset() == s.to_multiset(),
    ensures
        r == sorted_ranks::<T>(s),
{
    lemma_rank_order_total::<T>();
    s.lemma_sort_by_ensures(rank_order::<T>());
    lemma_sorted_unique(r, sorted_ranks::<T>(s), rank_order::<T>());
}

/// The sorted arrangement is ascending and holds exactly the elements of `s`.
pub proof fn lemma_sorted_ranks<T: Ranked>(s: Seq<T::Rank>)
    ensures
        sorted_by(sorted_ranks::<T>(s), rank_order::<T>()),
        sorted_ranks::<T>(s).to_multiset() == s.to_multiset(),
        sorted_ranks::<T>(s).len() == s.len(),
{
    lemma_rank_order_total::<T>();
    s.lemma_sort_by_ensures(rank_order::<T>());
    vstd::seq_lib::to_multiset_len(s);
    vstd::seq_lib::to_multiset_len(sorted_ranks::<T>(s));
}

/// An empty sequence holds no elements.
pub proof fn lemma_empty_to_multiset<A>(s: Seq<A>)
    requires
        s.len() == 0,
    ensures
        s.to_multiset() == Multiset::<A>::empty(),
{
    broadcast use vstd::multiset::group_multiset_axioms;

    vstd::seq_lib::to_multiset_len(s);
    assert(s.to_multiset() =~= Multiset::<A>::empty());
}

/// Sorts `v` ascending by rank: each element is inserted into the sorted part
/// at the place that a binary search finds.
pub fn sort<T: Ranked>(v: Vec<T>) -> (out: Vec<T>)
    ensures
        ranks(out@) == sorted_ranks::<T>(ranks(v@)),
        sorted_by(ranks(out@), rank_order::<T>()),
        ranks(out@).to_multiset() == ranks(v@).to_multiset(),
        out@.len() == v@.len(),
{
    let mut rest = v;
    let mut out: Vec<T> = Vec::new();
    proof {
        lemma_rank_order_total::<T>();
        lemma_empty_to_multiset(ranks(out@));
        assert(ranks(out@).to_multiset().add(ranks(rest@).to_multiset()) =~= ranks(
            v@,
        ).to_multiset());
    }
    while rest.len() > 0
        invariant
            total_ordering(rank_order::<T>()),
            sorted_by(ranks(out@), rank_order::<T>()),
            ranks(out@).to_multiset().add(ranks(rest@).to_multiset()) == ranks(v@).to_multiset(),
            out@.len() + rest@.len() == v@.len(),
        decreases rest.len(),
    {
        let ghost before_rest = rest@;
        let ghost before_out = out@;
        let x = rest.pop().unwrap();
        let mut p: usize = 0;
        let mut end: usize = out.len();
        while p < end
            invariant
                p <= end <= out.len(),
                total_ordering(rank_order::<T>()),
                sorted_by(ranks(out@), rank_order::<T>()),
                forall|j: int| 0 <= j < p ==> T::rank_le(#[trigger] out@[j].rank(), x.rank()),
                forall|j: int|
                    end <= j < out.len() ==> !T::rank_le(#[trigger] out@[j].rank(), x.rank()),
            decreases end - p,
        {
            let mid = p + (end - p) / 2;
            let ghost leq = rank_order::<T>();
            let ghost r = ranks(out@);
            if out[mid].precedes(&x) {
                assert forall|j: int| 0 <= j <= mid implies T::rank_le(
                    #[trigger] out@[j].rank(),
                    x.rank(),
                ) by {
                    if j < mid {
                        assert(leq(r[j], r[mid as int]));
                    }
                    assert(leq(r[j], r[mid as int]) && leq(r[mid as int], x.rank()) ==> leq(
                        r[j],
                        x.rank(),
                    ));
                }
                p = mid + 1;
            } else {
                assert forall|j: int| mid <= j < out.len() implies !T::rank_le(
                    #[trigger] out@[j].rank(),
                    x.rank(),
                ) by {
                    if mid < j {
                        assert(leq(r[mid as int], r[j]));
                    }
                    assert(leq(r[mid as int], r[j]) && leq(r[j], x.rank()) ==> leq(
                        r[mid as int],
                        x.rank(),
                    ));
                }
                end = mid;
            }
        }
        out.insert(p, x);
        proof {
            let leq = rank_order::<T>();
            let old_r = ranks(before_out);
            let new_r = ranks(out@);
            assert(new_r =~= old_r.insert(p as int, x.rank()));
            assert(ranks(before_rest) =~= ranks(rest@).push(x.rank()));
            to_multiset_insert(old_r, p as int, x.rank());
            vstd::seq_lib::to_multiset_build(ranks(rest@), x.rank());
            assert(new_r.to_multiset().add(ranks(rest@).to_multiset()) =~= ranks(
                v@,
            ).to_multiset());
            assert forall|i: int, j: int| 0 <= i < j < new_r.len() implies #[trigger] leq(
                new_r[i],
                new_r[j],
            ) by {
                if j < p {
                    assert(leq(old_r[i], old_r[j]));
                } else if j == p {
                    assert(T::rank_le(before_out[i].rank(), x.rank()));
                } else if i < p {
                    assert(leq(old_r[i], old_r[j - 1]));
                } else if i == p {
                    assert(!T::rank_le(before_out[j - 1].rank(), x.rank()));
                    assert(leq(old_r[j - 1], x.rank()) || leq(x.rank(), old_r[j - 1]));
                } else {
                    assert(leq(old_r[i - 1], old_r[j - 1]));
                }
            }
        }
    }
    proof {
        lemma_empty_to_multiset(ranks(rest@));
        assert(ranks(out@).to_multiset() =~= ranks(v@).to_multiset());
        lemma_sorted_arrangement::<T>(ranks(out@), ranks(v@));
    }
    out
}

/// Sorts strings into ascending lexicographic order.
pub fn sort_strings(v: Vec<String>) -> (out: Vec<String>)
    ensures
        out.deep_view() == lex_sort(v.deep_view()),
        lex_sorted(out.deep_view()),
        out.deep_view().to_multiset() == v.deep_view().to_multiset(),
        out@.len() == v@.len(),
{
    proof {
        assert(ranks(v@) =~= v.deep_view());
    }
    let out = sort(v);
    proof {
        assert(ranks(out@) =~= out.deep_view());
    }
    out
}

} // verus!
