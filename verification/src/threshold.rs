use vstd::prelude::*;
use vstd::relations::{sorted_by, total_ordering};
use vstd::seq_lib::lemma_sorted_unique;
use vstd::multiset::Multiset;
use crate::valid_score;

verus! {

/// Descending order on scores, as a relation for `Seq::sort_by`.
pub open spec fn desc_leq() -> spec_fn(u32, u32) -> bool {
    |a: u32, b: u32| a >= b
}

/// A score list arranged from highest to lowest.
pub open spec fn sorted_desc(s: Seq<u32>) -> bool {
    forall|i: int, j: int| 0 <= i <= j < s.len() ==> s[i] >= s[j]
}

/// The scores of a category, sorted from highest to lowest.
pub open spec fn sorted_scores(s: Seq<u32>) -> Seq<u32> {
    s.sort_by(desc_leq())
}

/// The drop between two consecutive entries of a descending score list.
pub open spec fn gap(s: Seq<u32>, i: int) -> int {
    s[i] - s[i + 1]
}

/// `t` is the position of the largest consecutive drop in `s`,
/// taking the first position on ties.
pub open spec fn is_max_gap_index(s: Seq<u32>, t: int) -> bool {
    &&& 0 <= t < s.len() - 1
    &&& forall|j: int| 0 <= j < s.len() - 1 ==> gap(s, j) <= gap(s, t)
    &&& forall|j: int| 0 <= j < t ==> gap(s, j) < gap(s, t)
}

/// The maximum-gap cutoff of a descending score list: the midpoint of the
/// largest consecutive drop (integer division rounds down).
pub open spec fn mcut_of(s: Seq<u32>) -> int {
    let t = choose|t: int| is_max_gap_index(s, t);
    (s[t] + s[t + 1]) / 2
}

/// At most one position can be the first maximum gap.
pub proof fn lemma_max_gap_index_unique(s: Seq<u32>, t1: int, t2: int)
    requires
        is_max_gap_index(s, t1),
        is_max_gap_index(s, t2),
    ensures
        t1 == t2,
{
    if t1 < t2 {
        assert(gap(s, t1) < gap(s, t2));
        assert(gap(s, t2) <= gap(s, t1));
    }
    if t2 < t1 {
        assert(gap(s, t2) < gap(s, t1));
        assert(gap(s, t1) <= gap(s, t2));
    }
}

/// `mcut_of` evaluated at a known maximum-gap position.
pub proof fn lemma_mcut_at(s: Seq<u32>, t: int)
    requires
        is_max_gap_index(s, t),
    ensures
        mcut_of(s) == (s[t] + s[t + 1]) / 2,
{
    let c = choose|c: int| is_max_gap_index(s, c);
    lemma_max_gap_index_unique(s, t, c);
}

proof fn lemma_desc_leq_total()
    ensures
        total_ordering(desc_leq()),
{
}

/// Sort a score list into descending order.
///
/// Selection sort: repeatedly move the largest remaining score to the output.
pub fn sort_scores_desc(v: &Vec<u32>) -> (r: Vec<u32>)
    ensures
        r@ == sorted_scores(v@),
        r@.to_multiset() == v@.to_multiset(),
        sorted_desc(r@),
        r@.len() == v@.len(),
{
    let mut rest: Vec<u32> = Vec::new();
    let mut i: usize = 0;
    while i < v.len()
        invariant
            i <= v.len(),
            rest@ == v@.take(i as int),
        decreases v.len() - i,
    {
        rest.push(v[i]);
        assert(v@.take(i + 1 as int) == v@.take(i as int).push(v@[i as int]));
        i = i + 1;
    }
    assert(rest@ == v@);

    let mut out: Vec<u32> = Vec::new();
    proof {
        broadcast use vstd::seq_lib::group_to_multiset_ensures;
        broadcast use vstd::multiset::group_multiset_axioms;

        assert(out@.to_multiset().len() == 0);
        assert(out@.to_multiset().add(rest@.to_multiset()) =~= rest@.to_multiset());
    }
    while rest.len() > 0
        invariant
            out@.to_multiset().add(rest@.to_multiset()) == v@.to_multiset(),
            sorted_desc(out@),
            forall|a: int, b: int|
                0 <= a < out@.len() && 0 <= b < rest@.len() ==> out@[a] >= rest@[b],
        decreases rest.len(),
    {
        let mut m: usize = 0;
        let mut j: usize = 1;
        while j < rest.len()
            invariant
                m < j <= rest@.len(),
                rest@.len() > 0,
                forall|k: int| 0 <= k < j ==> rest@[k] <= rest@[m as int],
            decreases rest.len() - j,
        {
            if rest[j] > rest[m] {
                m = j;
            }
            j = j + 1;
        }
        let x = rest[m];
        let ghost old_rest = rest@;
        let ghost old_out = out@;
        rest.remove(m);
        out.push(x);
        proof {
            broadcast use vstd::seq_lib::group_to_multiset_ensures;

            assert(old_rest.remove(m as int).to_multiset() =~= old_rest.to_multiset().remove(x));
            assert(old_out.push(x).to_multiset() =~= old_out.to_multiset().insert(x));
            assert(out@.to_multiset().add(rest@.to_multiset()) =~= v@.to_multiset());
            assert forall|b: int| 0 <= b < rest@.len() implies x >= rest@[b] by {
                if b < m {
                    assert(rest@[b] == old_rest[b]);
                } else {
                    assert(rest@[b] == old_rest[b + 1]);
                }
            }
        }
    }
    proof {
        broadcast use vstd::seq_lib::group_to_multiset_ensures;

        lemma_desc_leq_total();
        v@.lemma_sort_by_ensures(desc_leq());
        assert(rest@.to_multiset() =~= Seq::<u32>::empty().to_multiset());
        assert(out@.to_multiset().add(Multiset::<u32>::empty()) =~= out@.to_multiset());
        assert(out@.to_multiset() == v@.to_multiset());
        assert(sorted_by(out@, desc_leq()));
        assert(sorted_by(sorted_scores(v@), desc_leq()));
        lemma_sorted_unique(out@, sorted_scores(v@), desc_leq());
        assert(out@ == sorted_scores(v@));
        assert(out@.len() == out@.to_multiset().len());
        assert(v@.len() == v@.to_multiset().len());
    }
    out
}

/// The maximum-gap ("MCut") cutoff of a score list, or `None` when fewer than
/// two scores are present and no gap exists.
///
/// The scores are sorted descending; the cutoff is the midpoint of the
/// largest drop between consecutive sorted scores, taking the first drop
/// on ties.
pub fn mcut_threshold(probs: &Vec<u32>) -> (r: Option<u32>)
    requires
        forall|i: int| 0 <= i < probs@.len() ==> valid_score(#[trigger] probs@[i]),
    ensures
        r is Some <==> probs@.len() >= 2,
        r is Some ==> r->0 == mcut_of(sorted_scores(probs@)),
        r is Some ==> valid_score(r->0),
{
    broadcast use vstd::seq_lib::group_to_multiset_ensures;

    if probs.len() < 2 {
        return None;
    }
    let s = sort_scores_desc(probs);
    assert(s@.len() >= 2);
    proof {
        assert forall|k: int| 0 <= k < s@.len() implies valid_score(#[trigger] s@[k]) by {
            assert(s@.to_multiset().contains(s@[k]));
            assert(probs@.to_multiset().count(s@[k]) > 0);
            assert(probs@.contains(s@[k]));
        }
    }
    let mut t: usize = 0;
    let mut best: u32 = s[0] - s[1];
    let mut j: usize = 1;
    while j < s.len() - 1
        invariant
            s@.len() >= 2,
            sorted_desc(s@),
            forall|k: int| 0 <= k < s@.len() ==> valid_score(#[trigger] s@[k]),
            1 <= j <= s@.len() - 1,
            0 <= t < j,
            best == gap(s@, t as int),
            forall|k: int| 0 <= k < j ==> gap(s@, k) <= best,
            forall|k: int| 0 <= k < t ==> gap(s@, k) < best,
        decreases s.len() - j,
    {
        let g = s[j] - s[j + 1];
        if g > best {
            t = j;
            best = g;
        }
        j = j + 1;
    }
    proof {
        assert(is_max_gap_index(s@, t as int));
        lemma_mcut_at(s@, t as int);
    }
    Some((s[t] + s[t + 1]) / 2)
}

} // verus!
