use vstd::prelude::*;
use vstd::relations::{sorted_by, total_ordering};
use vstd::seq_lib::lemma_sorted_unique;
use vstd::multiset::Multiset;
use crate::catalog::LabelCatalog;
use crate::errors::{InferenceError, PredictError, PreprocessError};
use crate::preprocess::RgbaBuffer;
use crate::threshold::{mcut_of, mcut_threshold, sorted_scores};
use crate::valid_score;

verus! {

/// Lowest threshold ever applied to the character category under the
/// adaptive policy, in fixed-point score units (0.15).
pub const CHARACTER_FLOOR: u32 = 150000;

/// A catalog position paired with the score the inference run gave it.
#[derive(Clone, Copy, PartialEq, Eq, Structural, Debug)]
pub struct TagScore {
    pub index: usize,
    pub score: u32,
}

/// A tag name paired with its score, as handed back to callers.
#[derive(Debug)]
pub struct ScoredName {
    pub name: Vec<u8>,
    pub score: u32,
}

impl View for ScoredName {
    type V = (Seq<u8>, u32);

    open spec fn view(&self) -> (Seq<u8>, u32) {
        (self.name@, self.score)
    }
}

impl DeepView for ScoredName {
    type V = (Seq<u8>, u32);

    open spec fn deep_view(&self) -> (Seq<u8>, u32) {
        self.view()
    }
}

/// One category's candidate list: each listed catalog position with its score.
pub open spec fn spec_entries(idx: Seq<usize>, scores: Seq<u32>) -> Seq<TagScore> {
    Seq::new(idx.len(), |p: int| TagScore { index: idx[p], score: scores[idx[p] as int] })
}

/// The scores of a candidate list.
pub open spec fn entry_scores(es: Seq<TagScore>) -> Seq<u32> {
    es.map_values(|e: TagScore| e.score)
}

/// The candidates whose score lies strictly above `th`, in unchanged order.
pub open spec fn kept_above(es: Seq<TagScore>, th: u32) -> Seq<TagScore> {
    es.filter(|e: TagScore| e.score > th)
}

/// The adaptive cutoff for a candidate list: the maximum-gap midpoint of its
/// sorted scores, clamped to `floor`. Never below `floor`.
pub open spec fn adaptive_threshold(es: Seq<TagScore>, floor: u32) -> u32 {
    let m = mcut_of(sorted_scores(entry_scores(es)));
    if m >= floor {
        m as u32
    } else {
        floor
    }
}

/// What a category's selection returns: the fixed policy keeps scores
/// strictly above the caller's threshold; the adaptive policy keeps scores
/// strictly above the clamped maximum-gap cutoff, and keeps everything when
/// fewer than two candidates leave no gap to measure.
pub open spec fn selected(es: Seq<TagScore>, fixed: u32, adaptive: bool, floor: u32) -> Seq<
    TagScore,
> {
    if !adaptive {
        kept_above(es, fixed)
    } else if es.len() < 2 {
        es
    } else {
        kept_above(es, adaptive_threshold(es, floor))
    }
}

/// Law: the adaptive character cutoff never lies below the floor, even when
/// the raw gap midpoint does.
pub proof fn lemma_adaptive_floor(es: Seq<TagScore>, floor: u32)
    ensures
        adaptive_threshold(es, floor) >= floor,
{
}

/// Descending score with ascending catalog position as the tie-break: a
/// total order on distinct candidates.
pub open spec fn entry_leq() -> spec_fn(TagScore, TagScore) -> bool {
    |a: TagScore, b: TagScore| a.score > b.score || (a.score == b.score && a.index <= b.index)
}

proof fn lemma_entry_leq_total()
    ensures
        total_ordering(entry_leq()),
{
    assert forall|a: TagScore, b: TagScore| #[trigger] entry_leq()(a, b) && entry_leq()(
        b,
        a,
    ) implies a == b by {
        assert(a.score == b.score && a.index == b.index);
    }
}

/// Build one category's candidate list from its index partition.
pub fn candidates(idx: &Vec<usize>, scores: &Vec<u32>) -> (r: Vec<TagScore>)
    requires
        forall|p: int| 0 <= p < idx@.len() ==> (#[trigger] idx@[p]) < scores@.len(),
    ensures
        r@ == spec_entries(idx@, scores@),
{
    let mut r: Vec<TagScore> = Vec::new();
    let mut p: usize = 0;
    while p < idx.len()
        invariant
            p <= idx@.len(),
            forall|q: int| 0 <= q < idx@.len() ==> (#[trigger] idx@[q]) < scores@.len(),
            r@.len() == p,
            forall|q: int| 0 <= q < p ==> #[trigger] r@[q] == spec_entries(idx@, scores@)[q],
        decreases idx.len() - p,
    {
        let i = idx[p];
        r.push(TagScore { index: i, score: scores[i] });
        p = p + 1;
    }
    assert(r@ =~= spec_entries(idx@, scores@));
    r
}

/// Pick the position, within the rating partition, of the highest-scoring
/// rating tag; the first such position on ties.
pub fn select_best_rating(idx: &Vec<usize>, scores: &Vec<u32>) -> (p: usize)
    requires
        idx@.len() > 0,
        forall|q: int| 0 <= q < idx@.len() ==> (#[trigger] idx@[q]) < scores@.len(),
    ensures
        p < idx@.len(),
        forall|q: int|
            0 <= q < idx@.len() ==> scores@[#[trigger] idx@[q] as int] <= scores@[idx@[p as int] as int],
        forall|q: int| 0 <= q < p ==> scores@[#[trigger] idx@[q] as int] < scores@[idx@[p as int] as int],
{
    let mut p: usize = 0;
    let mut q: usize = 1;
    while q < idx.len()
        invariant
            idx@.len() > 0,
            forall|k: int| 0 <= k < idx@.len() ==> (#[trigger] idx@[k]) < scores@.len(),
            p < q <= idx@.len(),
            forall|k: int|
                0 <= k < q ==> scores@[#[trigger] idx@[k] as int] <= scores@[idx@[p as int] as int],
            forall|k: int| 0 <= k < p ==> scores@[#[trigger] idx@[k] as int] < scores@[idx@[p as int] as int],
        decreases idx.len() - q,
    {
        if scores[idx[q]] > scores[idx[p]] {
            p = q;
        }
        q = q + 1;
    }
    p
}

/// Keep exactly the candidates whose score lies strictly above `threshold`.
/// The boundary value itself is excluded; survivors keep their order.
pub fn filter_entries_above(entries: &Vec<TagScore>, threshold: u32) -> (r: Vec<TagScore>)
    ensures
        r@ == kept_above(entries@, threshold),
{
    let mut r: Vec<TagScore> = Vec::new();
    let mut i: usize = 0;
    while i < entries.len()
        invariant
            i <= entries@.len(),
            r@ == entries@.take(i as int).filter(|e: TagScore| e.score > threshold),
        decreases entries.len() - i,
    {
        let ghost pre = entries@.take(i as int);
        if entries[i].score > threshold {
            r.push(entries[i]);
        }
        proof {
            reveal(Seq::filter);
            let post = entries@.take(i + 1);
            assert(post.drop_last() == pre);
            assert(post.last() == entries@[i as int]);
        }
        i = i + 1;
    }
    assert(entries@.take(entries@.len() as int) == entries@);
    r
}

/// Apply one category's selection policy.
pub fn apply_policy(entries: &Vec<TagScore>, fixed: u32, adaptive: bool, floor: u32) -> (r: Vec<
    TagScore,
>)
    requires
        forall|q: int| 0 <= q < entries@.len() ==> valid_score(#[trigger] entries@[q].score),
    ensures
        r@ == selected(entries@, fixed, adaptive, floor),
{
    if !adaptive {
        return filter_entries_above(entries, fixed);
    }
    let mut probs: Vec<u32> = Vec::new();
    let mut i: usize = 0;
    while i < entries.len()
        invariant
            i <= entries@.len(),
            forall|q: int| 0 <= q < entries@.len() ==> valid_score(#[trigger] entries@[q].score),
            probs@.len() == i,
            forall|q: int| 0 <= q < i ==> #[trigger] probs@[q] == entries@[q].score,
        decreases entries.len() - i,
    {
        probs.push(entries[i].score);
        i = i + 1;
    }
    assert(probs@ =~= entry_scores(entries@));
    match mcut_threshold(&probs) {
        None => {
            let mut r: Vec<TagScore> = Vec::new();
            let mut j: usize = 0;
            while j < entries.len()
                invariant
                    j <= entries@.len(),
                    r@ == entries@.take(j as int),
                decreases entries.len() - j,
            {
                r.push(entries[j]);
                assert(entries@.take(j + 1) == entries@.take(j as int).push(entries@[j as int]));
                j = j + 1;
            }
            assert(entries@.take(entries@.len() as int) == entries@);
            r
        },
        Some(m) => {
            let th = if m >= floor {
                m
            } else {
                floor
            };
            assert(th == adaptive_threshold(entries@, floor));
            filter_entries_above(entries, th)
        },
    }
}

/// Law: where a category's index partition is strictly increasing, selection
/// keeps the surviving candidates in that same catalog-position order; the
/// character list in particular is never resorted.
pub proof fn lemma_selected_keeps_order(
    es: Seq<TagScore>,
    fixed: u32,
    adaptive: bool,
    floor: u32,
)
    requires
        forall|p: int, q: int| 0 <= p < q < es.len() ==> es[p].index < es[q].index,
    ensures
        forall|p: int, q: int|
            0 <= p < q < selected(es, fixed, adaptive, floor).len() ==> selected(
                es,
                fixed,
                adaptive,
                floor,
            )[p].index < selected(es, fixed, adaptive, floor)[q].index,
{
    if !adaptive {
        lemma_filter_keeps_order(es, |e: TagScore| e.score > fixed);
    } else if es.len() >= 2 {
        lemma_filter_keeps_order(es, |e: TagScore| e.score > adaptive_threshold(es, floor));
    }
}

/// Every survivor of a threshold cut is one of the original candidates.
pub proof fn lemma_kept_above_elem(es: Seq<TagScore>, th: u32, p: int)
    requires
        0 <= p < kept_above(es, th).len(),
    ensures
        exists|u: int| 0 <= u < es.len() && es[u] == kept_above(es, th)[p],
{
    assert(kept_above(es, th).contains(kept_above(es, th)[p]));
    es.lemma_filter_contains_rev(|e: TagScore| e.score > th, kept_above(es, th)[p]);
    let u = choose|u: int| 0 <= u < es.len() && es[u] == kept_above(es, th)[p];
    assert(0 <= u < es.len() && es[u] == kept_above(es, th)[p]);
}

/// Every survivor of a policy selection is one of the original candidates.
pub proof fn lemma_selected_elem(es: Seq<TagScore>, fixed: u32, adaptive: bool, floor: u32, p: int)
    requires
        0 <= p < selected(es, fixed, adaptive, floor).len(),
    ensures
        exists|u: int| 0 <= u < es.len() && es[u] == selected(es, fixed, adaptive, floor)[p],
{
    if !adaptive {
        lemma_kept_above_elem(es, fixed, p);
    } else if es.len() < 2 {
        assert(es[p] == selected(es, fixed, adaptive, floor)[p]);
    } else {
        lemma_kept_above_elem(es, adaptive_threshold(es, floor), p);
    }
}

proof fn lemma_filter_keeps_order(es: Seq<TagScore>, pred: spec_fn(TagScore) -> bool)
    requires
        forall|p: int, q: int| 0 <= p < q < es.len() ==> es[p].index < es[q].index,
    ensures
        forall|p: int, q: int|
            0 <= p < q < es.filter(pred).len() ==> es.filter(pred)[p].index < es.filter(
                pred,
            )[q].index,
    decreases es.len(),
{
    reveal(Seq::filter);
    if es.len() > 0 {
        let dl = es.drop_last();
        assert(forall|p: int, q: int| 0 <= p < q < dl.len() ==> dl[p].index < dl[q].index);
        lemma_filter_keeps_order(dl, pred);
        if pred(es.last()) {
            assert(es.filter(pred) == dl.filter(pred).push(es.last()));
            assert forall|p: int| 0 <= p < dl.filter(pred).len() implies dl.filter(pred)[p].index
                < es.last().index by {
                dl.lemma_filter_contains_rev(pred, dl.filter(pred)[p]);
                let w = choose|w: int| 0 <= w < dl.len() && dl[w] == dl.filter(pred)[p];
                assert(dl[w] == es[w]);
            }
        } else {
            assert(es.filter(pred) == dl.filter(pred));
        }
    }
}

/// Sort a surviving general list: descending score, with catalog position as
/// the tie-break. Selection sort, as for the raw score lists.
pub fn sort_entries_desc(v: &Vec<TagScore>) -> (r: Vec<TagScore>)
    ensures
        r@ == v@.sort_by(entry_leq()),
        r@.to_multiset() == v@.to_multiset(),
        sorted_by(r@, entry_leq()),
        r@.len() == v@.len(),
{
    let mut rest: Vec<TagScore> = Vec::new();
    let mut i: usize = 0;
    while i < v.len()
        invariant
            i <= v.len(),
            rest@ == v@.take(i as int),
        decreases v.len() - i,
    {
        rest.push(v[i]);
        assert(v@.take(i + 1 as int) == v@.take(i as int).push(v@[i as int]));
        i = i + 1;
    }
    assert(rest@ == v@);

    let mut out: Vec<TagScore> = Vec::new();
    proof {
        broadcast use vstd::seq_lib::group_to_multiset_ensures;
        broadcast use vstd::multiset::group_multiset_axioms;

        assert(out@.to_multiset().len() == 0);
        assert(out@.to_multiset().add(rest@.to_multiset()) =~= rest@.to_multiset());
    }
    while rest.len() > 0
        invariant
            out@.to_multiset().add(rest@.to_multiset()) == v@.to_multiset(),
            sorted_by(out@, entry_leq()),
            forall|a: int, b: int|
                0 <= a < out@.len() && 0 <= b < rest@.len() ==> entry_leq()(out@[a], rest@[b]),
        decreases rest.len(),
    {
        let mut m: usize = 0;
        let mut j: usize = 1;
        while j < rest.len()
            invariant
                m < j <= rest@.len(),
                rest@.len() > 0,
                forall|k: int| 0 <= k < j ==> entry_leq()(rest@[m as int], #[trigger] rest@[k]),
            decreases rest.len() - j,
        {
            let better = rest[j].score > rest[m].score || (rest[j].score == rest[m].score
                && rest[j].index < rest[m].index);
            if better {
                m = j;
            }
            j = j + 1;
        }
        let x = rest[m];
        let ghost old_rest = rest@;
        let ghost old_out = out@;
        rest.remove(m);
        out.push(x);
        proof {
            broadcast use vstd::seq_lib::group_to_multiset_ensures;

            assert(old_rest.remove(m as int).to_multiset() =~= old_rest.to_multiset().remove(x));
            assert(old_out.push(x).to_multiset() =~= old_out.to_multiset().insert(x));
            assert(out@.to_multiset().add(rest@.to_multiset()) =~= v@.to_multiset());
            assert forall|b: int| 0 <= b < rest@.len() implies entry_leq()(x, rest@[b]) by {
                if b < m {
                    assert(rest@[b] == old_rest[b]);
                } else {
                    assert(rest@[b] == old_rest[b + 1]);
                }
            }
        }
    }
    proof {
        broadcast use vstd::seq_lib::group_to_multiset_ensures;

        lemma_entry_leq_total();
        v@.lemma_sort_by_ensures(entry_leq());
        assert(rest@.to_multiset() =~= Seq::<TagScore>::empty().to_multiset());
        assert(out@.to_multiset().add(Multiset::<TagScore>::empty()) =~= out@.to_multiset());
        assert(out@.to_multiset() == v@.to_multiset());
        lemma_sorted_unique(out@, v@.sort_by(entry_leq()), entry_leq());
        assert(out@ == v@.sort_by(entry_leq()));
        assert(out@.len() == out@.to_multiset().len());
        assert(v@.len() == v@.to_multiset().len());
    }
    out
}

// ---------------------------------------------------------------------------
// Result assembly
// ---------------------------------------------------------------------------

/// Candidates with their catalog names attached, position by position.
pub open spec fn named(names: Seq<Seq<u8>>, es: Seq<TagScore>) -> Seq<(Seq<u8>, u32)> {
    es.map_values(|e: TagScore| (names[e.index as int], e.score))
}

/// The names joined with a comma and a space; empty when nothing survives.
pub open spec fn join_sep(names: Seq<Seq<u8>>) -> Seq<u8>
    decreases names.len(),
{
    if names.len() == 0 {
        Seq::empty()
    } else if names.len() == 1 {
        names[0]
    } else {
        join_sep(names.drop_last()) + seq![44u8, 32u8] + names.last()
    }
}

/// Attach the catalog name to each surviving candidate.
pub fn attach_names(catalog: &LabelCatalog, entries: &Vec<TagScore>) -> (r: Vec<ScoredName>)
    requires
        forall|p: int|
            0 <= p < entries@.len() ==> (#[trigger] entries@[p].index)
                < catalog.tag_names@.len(),
    ensures
        r.deep_view() == named(catalog.tag_names.deep_view(), entries@),
{
    let mut r: Vec<ScoredName> = Vec::new();
    let mut p: usize = 0;
    while p < entries.len()
        invariant
            p <= entries@.len(),
            forall|q: int|
                0 <= q < entries@.len() ==> (#[trigger] entries@[q].index)
                    < catalog.tag_names@.len(),
            r@.len() == p,
            forall|q: int|
                0 <= q < p ==> (#[trigger] r@[q].name@) == catalog.tag_names@[entries@[q].index as int]@
                    && r@[q].score == entries@[q].score,
        decreases entries.len() - p,
    {
        let e = entries[p];
        let name = catalog.tag_names[e.index].clone();
        assert(name@ =~= catalog.tag_names@[e.index as int]@);
        r.push(ScoredName { name, score: e.score });
        p = p + 1;
    }
    proof {
        let names = catalog.tag_names.deep_view();
        assert forall|q: int| 0 <= q < r@.len() implies r.deep_view()[q] == named(
            names,
            entries@,
        )[q] by {
            assert(names[entries@[q].index as int] =~= catalog.tag_names@[entries@[q].index as int]@);
            assert(r.deep_view()[q] == (r@[q].name@, r@[q].score));
        }
        assert(r.deep_view() =~= named(names, entries@));
    }
    r
}

/// Join tag names with a comma and a space.
pub fn join_names(names: &Vec<Vec<u8>>) -> (r: Vec<u8>)
    ensures
        r@ == join_sep(names.deep_view()),
{
    let mut r: Vec<u8> = Vec::new();
    let mut i: usize = 0;
    proof {
        assert(names.deep_view().take(0) =~= Seq::<Seq<u8>>::empty());
    }
    while i < names.len()
        invariant
            i <= names@.len(),
            r@ == join_sep(names.deep_view().take(i as int)),
        decreases names.len() - i,
    {
        let ghost pre = names.deep_view().take(i as int);
        let ghost post = names.deep_view().take(i + 1);
        if i > 0 {
            r.push(44);
            r.push(32);
        }
        let piece = &names[i];
        let mut b: usize = 0;
        let ghost base = r@;
        while b < piece.len()
            invariant
                b <= piece@.len(),
                r@ == base + piece@.take(b as int),
            decreases piece.len() - b,
        {
            r.push(piece[b]);
            assert(piece@.take(b + 1) == piece@.take(b as int).push(piece@[b as int]));
            b = b + 1;
        }
        proof {
            assert(piece@.take(piece@.len() as int) == piece@);
            assert(names.deep_view()[i as int] =~= names@[i as int]@);
            assert(post.drop_last() =~= pre);
            assert(post.last() == names.deep_view()[i as int]);
            if i == 0 {
                assert(join_sep(pre) == Seq::<u8>::empty());
                assert(r@ =~= join_sep(post));
            } else {
                assert(post.len() >= 2);
                assert(r@ =~= join_sep(pre) + seq![44u8, 32u8] + names.deep_view()[i as int]);
            }
        }
        i = i + 1;
    }
    assert(names.deep_view().take(names@.len() as int) == names.deep_view());
    r
}

/// The names of a scored list, in order.
pub open spec fn names_only(rs: Seq<(Seq<u8>, u32)>) -> Seq<Seq<u8>> {
    rs.map_values(|r: (Seq<u8>, u32)| r.0)
}

/// Everything one tagging call returns.
#[derive(Debug)]
pub struct TaggingResult {
    /// The surviving general tag names joined with a comma and a space.
    pub caption: Vec<u8>,
    /// The highest-scoring rating tag; the first on ties.
    pub rating: ScoredName,
    /// Surviving general tags, sorted descending by score, catalog order on
    /// ties.
    pub general: Vec<ScoredName>,
    /// Surviving character tags, in catalog order.
    pub character: Vec<ScoredName>,
}

/// The general candidates a catalog and score vector give.
pub open spec fn general_entries(c: LabelCatalog, scores: Seq<u32>) -> Seq<TagScore> {
    spec_entries(c.general_i@, scores)
}

/// The character candidates a catalog and score vector give.
pub open spec fn character_entries(c: LabelCatalog, scores: Seq<u32>) -> Seq<TagScore> {
    spec_entries(c.character_i@, scores)
}

/// Categorize one inference run's score vector.
///
/// The rating is the highest-scoring rating tag (first on ties); the general
/// and character lists are thresholded by the requested policies; the general
/// list is then sorted descending by score while the character list keeps
/// catalog order; the caption joins the surviving general names.
pub fn categorize(
    catalog: &LabelCatalog,
    scores: &Vec<u32>,
    g_th: u32,
    g_mcut: bool,
    c_th: u32,
    c_mcut: bool,
) -> (r: Result<TaggingResult, InferenceError>)
    requires
        catalog.wf(),
        catalog.rating_i@.len() > 0,
        forall|i: int| 0 <= i < scores@.len() ==> valid_score(#[trigger] scores@[i]),
    ensures
        r is Ok <==> scores@.len() == catalog.tag_names@.len(),
        r is Err ==> r->Err_0 == InferenceError::ShapeMismatch,
        r is Ok ==> {
            let res = r->Ok_0;
            let names = catalog.tag_names.deep_view();
            &&& exists|p: int|
                {
                    &&& 0 <= p < catalog.rating_i@.len()
                    &&& res.rating@ == (names[catalog.rating_i@[p] as int],
                    scores@[catalog.rating_i@[p] as int])
                    &&& forall|q: int|
                        0 <= q < catalog.rating_i@.len()
                            ==> scores@[#[trigger] catalog.rating_i@[q] as int]
                            <= scores@[catalog.rating_i@[p] as int]
                    &&& forall|q: int|
                        0 <= q < p ==> scores@[#[trigger] catalog.rating_i@[q] as int]
                            < scores@[catalog.rating_i@[p] as int]
                }
            &&& res.general.deep_view() == named(
                names,
                selected(general_entries(*catalog, scores@), g_th, g_mcut, 0).sort_by(
                    entry_leq(),
                ),
            )
            &&& res.character.deep_view() == named(
                names,
                selected(character_entries(*catalog, scores@), c_th, c_mcut, CHARACTER_FLOOR),
            )
            &&& res.caption@ == join_sep(names_only(res.general.deep_view()))
            &&& forall|p: int, q: int|
                0 <= p < q < res.general@.len() ==> res.general@[p].score >= res.general@[q].score
        },
{
    if scores.len() != catalog.len() {
        return Err(InferenceError::ShapeMismatch);
    }
    let ghost names = catalog.tag_names.deep_view();

    let best = select_best_rating(&catalog.rating_i, scores);
    let bi = catalog.rating_i[best];
    let rating = ScoredName { name: catalog.tag_names[bi].clone(), score: scores[bi] };
    proof {
        assert(catalog.tag_names@[bi as int]@ =~= names[bi as int]);
    }

    let gen = candidates(&catalog.general_i, scores);
    let chr = candidates(&catalog.character_i, scores);
    proof {
        assert forall|q: int| 0 <= q < gen@.len() implies valid_score(
            #[trigger] gen@[q].score,
        ) by {
            assert(gen@[q] == spec_entries(catalog.general_i@, scores@)[q]);
        }
        assert forall|q: int| 0 <= q < chr@.len() implies valid_score(
            #[trigger] chr@[q].score,
        ) by {
            assert(chr@[q] == spec_entries(catalog.character_i@, scores@)[q]);
        }
    }
    let gen_kept = apply_policy(&gen, g_th, g_mcut, 0);
    let chr_kept = apply_policy(&chr, c_th, c_mcut, CHARACTER_FLOOR);
    let gen_sorted = sort_entries_desc(&gen_kept);
    proof {
        broadcast use vstd::seq_lib::group_to_multiset_ensures;

        assert forall|p: int| 0 <= p < gen_sorted@.len() implies (
        #[trigger] gen_sorted@[p].index) < catalog.tag_names@.len() by {
            assert(gen_sorted@.to_multiset().contains(gen_sorted@[p]));
            assert(gen_kept@.contains(gen_sorted@[p]));
            let w = choose|w: int| 0 <= w < gen_kept@.len() && gen_kept@[w] == gen_sorted@[p];
            lemma_selected_elem(gen@, g_th, g_mcut, 0, w);
            let u = choose|u: int| 0 <= u < gen@.len() && gen@[u] == gen_kept@[w];
            assert(gen@[u] == spec_entries(catalog.general_i@, scores@)[u]);
        }
        assert forall|p: int| 0 <= p < chr_kept@.len() implies (
        #[trigger] chr_kept@[p].index) < catalog.tag_names@.len() by {
            lemma_selected_elem(chr@, c_th, c_mcut, CHARACTER_FLOOR, p);
            let u = choose|u: int| 0 <= u < chr@.len() && chr@[u] == chr_kept@[p];
            assert(chr@[u] == spec_entries(catalog.character_i@, scores@)[u]);
        }
    }
    let general = attach_names(catalog, &gen_sorted);
    let character = attach_names(catalog, &chr_kept);

    let mut gen_names: Vec<Vec<u8>> = Vec::new();
    let mut p: usize = 0;
    while p < general.len()
        invariant
            p <= general@.len(),
            gen_names@.len() == p,
            forall|q: int| 0 <= q < p ==> #[trigger] gen_names@[q]@ == general@[q].name@,
        decreases general.len() - p,
    {
        gen_names.push(general[p].name.clone());
        p = p + 1;
    }
    proof {
        assert forall|q: int| 0 <= q < gen_names@.len() implies gen_names.deep_view()[q]
            =~= names_only(general.deep_view())[q] by {
            assert(general.deep_view()[q].0 == general@[q].name@);
            assert(gen_names.deep_view()[q] =~= gen_names@[q]@);
        }
        assert(gen_names.deep_view() =~~= names_only(general.deep_view()));
    }
    let caption = join_names(&gen_names);

    proof {
        assert forall|a: int, b: int|
            0 <= a < b < general@.len() implies general@[a].score >= general@[b].score by {
            assert(entry_leq()(gen_sorted@[a], gen_sorted@[b]));
            assert(general.deep_view()[a] == named(names, gen_sorted@)[a]);
            assert(general.deep_view()[b] == named(names, gen_sorted@)[b]);
            assert(general@[a].score == general.deep_view()[a].1);
        }
    }

    Ok(TaggingResult { caption, rating, general, character })
}

// ---------------------------------------------------------------------------
// The engine's load-state machine
// ---------------------------------------------------------------------------

/// Where the lazy one-time load stands.
#[derive(Clone, Copy, PartialEq, Eq, Structural, Debug)]
pub enum EngineState {
    /// Nothing loaded; a load may begin.
    Unloaded,
    /// A load is in flight; no second load may begin.
    Loading,
    /// Catalog and engine are ready; terminal.
    Loaded,
}

/// The tagging pipeline's owned state: the load-state machine, and — once
/// loaded — the catalog and the model's declared input dimension. The numeric
/// runtime itself stays outside; its caller drives the load and hands each
/// inference run's score vector in.
pub struct Predictor {
    pub state: EngineState,
    pub size: usize,
    pub catalog: Option<LabelCatalog>,
}

impl Predictor {
    /// Once loaded, a well-formed catalog and its input size are present.
    pub open spec fn inv(self) -> bool {
        self.state is Loaded ==> self.catalog is Some && self.catalog->0.wf()
    }

    /// A fresh, unloaded predictor.
    pub fn new() -> (s: Self)
        ensures
            s.state is Unloaded,
            s.catalog is None,
            s.size == 0,
            s.inv(),
    {
        Predictor { state: EngineState::Unloaded, size: 0, catalog: None }
    }

    pub fn is_loaded(&self) -> (r: bool)
        ensures
            r == (self.state is Loaded),
    {
        match self.state {
            EngineState::Loaded => true,
            _ => false,
        }
    }

    /// Try to begin the one-time load. Returns true when this caller must now
    /// perform the load; false when the load is already done or in flight, so
    /// the caller must not start another.
    pub fn begin_load(&mut self) -> (start: bool)
        requires
            old(self).inv(),
        ensures
            final(self).inv(),
            start == (old(self).state is Unloaded),
            start ==> final(self).state is Loading,
            !start ==> *final(self) == *old(self),
            final(self).catalog == old(self).catalog,
            final(self).size == old(self).size,
    {
        match self.state {
            EngineState::Unloaded => {
                self.state = EngineState::Loading;
                true
            },
            _ => false,
        }
    }

    /// Record a finished load: the parsed catalog and the model's declared
    /// input dimension. Terminal.
    pub fn finish_load(&mut self, catalog: LabelCatalog, size: usize)
        requires
            old(self).state is Loading,
            catalog.wf(),
        ensures
            final(self).state is Loaded,
            final(self).inv(),
            final(self).catalog == Some(catalog),
            final(self).size == size,
    {
        self.catalog = Some(catalog);
        self.size = size;
        self.state = EngineState::Loaded;
    }

    /// Record a failed load: return to the retryable unloaded state rather
    /// than staying stuck in the in-flight one.
    pub fn abort_load(&mut self)
        requires
            old(self).state is Loading,
        ensures
            final(self).state is Unloaded,
            final(self).inv(),
            final(self).catalog == old(self).catalog,
            final(self).size == old(self).size,
    {
        self.state = EngineState::Unloaded;
    }

    /// Turn an image into the loaded model's input tensor, using the input
    /// dimension read from the model at load time.
    pub fn prepare(&self, img: &RgbaBuffer) -> (r: Result<Vec<u8>, PreprocessError>)
        requires
            0 < self.size <= u32::MAX,
            4 * (vstd::math::max(img.width as int, img.height as int)) * (vstd::math::max(
                img.width as int,
                img.height as int,
            )) <= usize::MAX,
        ensures
            r is Ok <==> img.width > 0 && img.height > 0 && img.wf(),
            img.width == 0 || img.height == 0 ==> r == Result::<
                Vec<u8>,
                PreprocessError,
            >::Err(PreprocessError::ZeroDimension),
            img.width > 0 && img.height > 0 && !img.wf() ==> r == Result::<
                Vec<u8>,
                PreprocessError,
            >::Err(PreprocessError::InvalidImage),
            r is Ok ==> r->Ok_0@ == crate::preprocess::bgr_tensor(
                crate::preprocess::resized_rgba(
                    crate::preprocess::letterboxed(
                        img.data@,
                        img.width as int,
                        img.height as int,
                        vstd::math::max(img.width as int, img.height as int),
                    ),
                    vstd::math::max(img.width as int, img.height as int) as nat,
                    self.size as nat,
                ),
                self.size as int,
            ),
    {
        crate::preprocess::prepare(img, self.size as u32)
    }

    /// Categorize one inference run against the loaded catalog, wrapping any
    /// failure as this stage's predict error.
    pub fn predict_from_scores(
        &self,
        scores: &Vec<u32>,
        g_th: u32,
        g_mcut: bool,
        c_th: u32,
        c_mcut: bool,
    ) -> (r: Result<TaggingResult, PredictError>)
        requires
            self.inv(),
            self.state is Loaded,
            self.catalog->0.rating_i@.len() > 0,
            forall|i: int| 0 <= i < scores@.len() ==> valid_score(#[trigger] scores@[i]),
        ensures
            r is Ok <==> scores@.len() == self.catalog->0.tag_names@.len(),
            r is Err ==> r->Err_0 == PredictError::Inference(InferenceError::ShapeMismatch),
            r is Ok ==> {
                let res = r->Ok_0;
                let c = self.catalog->0;
                let names = c.tag_names.deep_view();
                &&& exists|p: int|
                    {
                        &&& 0 <= p < c.rating_i@.len()
                        &&& res.rating@ == (names[c.rating_i@[p] as int],
                        scores@[c.rating_i@[p] as int])
                        &&& forall|q: int|
                            0 <= q < c.rating_i@.len()
                                ==> scores@[#[trigger] c.rating_i@[q] as int]
                                <= scores@[c.rating_i@[p] as int]
                        &&& forall|q: int|
                            0 <= q < p ==> scores@[#[trigger] c.rating_i@[q] as int]
                                < scores@[c.rating_i@[p] as int]
                    }
                &&& res.general.deep_view() == named(
                    names,
                    selected(general_entries(c, scores@), g_th, g_mcut, 0).sort_by(entry_leq()),
                )
                &&& res.character.deep_view() == named(
                    names,
                    selected(character_entries(c, scores@), c_th, c_mcut, CHARACTER_FLOOR),
                )
                &&& res.caption@ == join_sep(names_only(res.general.deep_view()))
            },
    {
        let catalog = match &self.catalog {
            Some(c) => c,
            None => {
                return Err(PredictError::Inference(InferenceError::EngineExecutionFailed));
            },
        };
        match categorize(catalog, scores, g_th, g_mcut, c_th, c_mcut) {
            Ok(res) => Ok(res),
            Err(e) => Err(PredictError::Inference(e)),
        }
    }
}

} // verus!
