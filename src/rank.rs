//! Ranking a collection of texts against a pattern.
//!
//! The ranking holds the position of every text that the pattern matches,
//! best score first, and among equal scores the lower position first.
use vstd::prelude::*;

use crate::score::{lemma_scored_iff_subsequence, score_chars, score_of, is_subsequence, PREFIX_SCORE};

verus! {

/// Position `a` goes before position `b`: a higher score, or the same score
/// and a lower position.
pub open spec fn ranks_before(texts: Seq<Seq<char>>, pat: Seq<char>, a: usize, b: usize) -> bool {
    let sa = score_of(pat, texts[a as int])->0;
    let sb = score_of(pat, texts[b as int])->0;
    sa > sb || (sa == sb && a < b)
}

pub open spec fn is_ordered(texts: Seq<Seq<char>>, pat: Seq<char>, r: Seq<usize>) -> bool {
    forall|k: int, l: int| 0 <= k < l < r.len() ==> ranks_before(texts, pat, #[trigger] r[k], #[trigger] r[l])
}

/// `r` is the ranking of `texts` against `pat`: exactly the matching
/// positions, in rank order.
pub open spec fn is_ranking(texts: Seq<Seq<char>>, pat: Seq<char>, r: Seq<usize>) -> bool {
    &&& forall|k: int| 0 <= k < r.len() ==> (#[trigger] r[k]) < texts.len() && score_of(pat, texts[r[k] as int]) is Some
    &&& forall|i: usize| i < texts.len() && (#[trigger] score_of(pat, texts[i as int])) is Some ==> r.contains(i)
    &&& is_ordered(texts, pat, r)
}

/// The ranking of `texts` against `pat` (there is exactly one).
pub open spec fn ranking(texts: Seq<Seq<char>>, pat: Seq<char>) -> Seq<usize> {
    choose|r: Seq<usize>| is_ranking(texts, pat, r)
}

proof fn lemma_ordered_tail(texts: Seq<Seq<char>>, pat: Seq<char>, r: Seq<usize>)
    requires
        r.len() > 0,
        is_ordered(texts, pat, r),
    ensures
        is_ordered(texts, pat, r.drop_first()),
        forall|x: usize| r.drop_first().contains(x) <==> (r.contains(x) && x != r[0]),
{
    let t = r.drop_first();
    assert forall|k: int, l: int| 0 <= k < l < t.len() implies ranks_before(texts, pat, #[trigger] t[k], #[trigger] t[l]) by {
        assert(t[k] == r[k + 1] && t[l] == r[l + 1]);
    }
    assert forall|x: usize| t.contains(x) <==> (r.contains(x) && x != r[0]) by {
        if t.contains(x) {
            let j = choose|j: int| 0 <= j < t.len() && t[j] == x;
            assert(r[j + 1] == x);
            assert(ranks_before(texts, pat, r[0], r[j + 1]));
        }
        if r.contains(x) && x != r[0] {
            let j = choose|j: int| 0 <= j < r.len() && r[j] == x;
            assert(t[j - 1] == x);
        }
    }
}

/// Two sequences in rank order with the same members are equal.
proof fn lemma_ordered_same_members(texts: Seq<Seq<char>>, pat: Seq<char>, r1: Seq<usize>, r2: Seq<usize>)
    requires
        is_ordered(texts, pat, r1),
        is_ordered(texts, pat, r2),
        forall|x: usize| r1.contains(x) <==> r2.contains(x),
    ensures
        r1 == r2,
    decreases r1.len(),
{
    if r1.len() == 0 {
        if r2.len() > 0 {
            assert(r2.contains(r2[0]));
        }
        assert(r1 =~= r2);
    } else {
        assert(r1.contains(r1[0]));
        assert(r2.contains(r2[0]));
        let k = choose|k: int| 0 <= k < r2.len() && r2[k] == r1[0];
        let m = choose|m: int| 0 <= m < r1.len() && r1[m] == r2[0];
        if k > 0 && m > 0 {
            assert(ranks_before(texts, pat, r2[0], r2[k]));
            assert(ranks_before(texts, pat, r1[0], r1[m]));
        }
        assert(r1[0] == r2[0]);
        lemma_ordered_tail(texts, pat, r1);
        lemma_ordered_tail(texts, pat, r2);
        assert forall|x: usize| r1.drop_first().contains(x) <==> r2.drop_first().contains(x) by {
            assert(r1.drop_first().contains(x) <==> (r1.contains(x) && x != r1[0]));
            assert(r2.drop_first().contains(x) <==> (r2.contains(x) && x != r2[0]));
        }
        lemma_ordered_same_members(texts, pat, r1.drop_first(), r2.drop_first());
        assert(r1 =~= seq![r1[0]] + r1.drop_first());
        assert(r2 =~= seq![r2[0]] + r2.drop_first());
    }
}

/// There is only one ranking of a collection against a pattern; in
/// particular, reading the ranking twice gives the same sequence.
pub proof fn law_ranking_is_unique(texts: Seq<Seq<char>>, pat: Seq<char>, r1: Seq<usize>, r2: Seq<usize>)
    requires
        is_ranking(texts, pat, r1),
        is_ranking(texts, pat, r2),
    ensures
        r1 == r2,
{
    assert forall|x: usize| r1.contains(x) <==> r2.contains(x) by {
        if r1.contains(x) {
            let j = choose|j: int| 0 <= j < r1.len() && r1[j] == x;
            assert(score_of(pat, texts[r1[j] as int]) is Some);
        }
        if r2.contains(x) {
            let j = choose|j: int| 0 <= j < r2.len() && r2[j] == x;
            assert(score_of(pat, texts[r2[j] as int]) is Some);
        }
    }
    lemma_ordered_same_members(texts, pat, r1, r2);
}

/// A ranking is what `ranking` denotes.
pub proof fn lemma_ranking_is_chosen(texts: Seq<Seq<char>>, pat: Seq<char>, r: Seq<usize>)
    requires
        is_ranking(texts, pat, r),
    ensures
        ranking(texts, pat) == r,
{
    law_ranking_is_unique(texts, pat, ranking(texts, pat), r);
}

/// With the empty pattern every position is returned, in collection order.
pub proof fn law_empty_pattern_keeps_order(texts: Seq<Seq<char>>)
    requires
        texts.len() <= usize::MAX,
    ensures
        ranking(texts, Seq::empty()) == Seq::new(texts.len(), |i: int| i as usize),
{
    let pat = Seq::<char>::empty();
    let all = Seq::new(texts.len(), |i: int| i as usize);
    assert forall|i: int| 0 <= i < texts.len() implies score_of(pat, texts[i]) == Some(PREFIX_SCORE) by {
        assert(texts[i].subrange(0, 0) =~= pat);
    }
    assert forall|i: usize| i < texts.len() && (#[trigger] score_of(pat, texts[i as int])) is Some implies all.contains(i) by {
        assert(all[i as int] == i);
    }
    lemma_ranking_is_chosen(texts, pat, all);
}

/// An empty collection has an empty ranking, whatever the pattern.
pub proof fn law_empty_collection(pat: Seq<char>)
    ensures
        ranking(Seq::empty(), pat) == Seq::<usize>::empty(),
{
    lemma_ranking_is_chosen(Seq::empty(), pat, Seq::empty());
}

/// Exactly the positions whose text holds the pattern as a subsequence are
/// ranked.
pub proof fn law_ranked_iff_subsequence(texts: Seq<Seq<char>>, pat: Seq<char>, r: Seq<usize>)
    requires
        is_ranking(texts, pat, r),
    ensures
        forall|k: int| 0 <= k < r.len() ==> is_subsequence(pat, texts[#[trigger] r[k] as int]),
        forall|i: usize| i < texts.len() && is_subsequence(pat, texts[i as int]) ==> r.contains(i),
{
    assert forall|k: int| 0 <= k < r.len() implies is_subsequence(pat, texts[#[trigger] r[k] as int]) by {
        lemma_scored_iff_subsequence(pat, texts[r[k] as int]);
    }
    assert forall|i: usize| i < texts.len() && is_subsequence(pat, texts[i as int]) implies r.contains(i) by {
        lemma_scored_iff_subsequence(pat, texts[i as int]);
    }
}

/// Of two ranked positions with the same score, the lower one comes first.
pub proof fn law_equal_scores_keep_order(texts: Seq<Seq<char>>, pat: Seq<char>, r: Seq<usize>, k: int, l: int)
    requires
        is_ranking(texts, pat, r),
        0 <= k < r.len(),
        0 <= l < r.len(),
        score_of(pat, texts[r[k] as int]) == score_of(pat, texts[r[l] as int]),
        r[k] < r[l],
    ensures
        k < l,
{
    if l < k {
        assert(ranks_before(texts, pat, r[l], r[k]));
    } else if l == k {
    }
}

/// Ranks `texts` against `pat`.
pub fn rank_texts(texts: &Vec<Vec<char>>, pat: &Vec<char>) -> (r: Vec<usize>)
    ensures
        is_ranking(texts@.map_values(|t: Vec<char>| t@), pat@, r@),
        r@ == ranking(texts@.map_values(|t: Vec<char>| t@), pat@),
{
    let ghost tv = texts@.map_values(|t: Vec<char>| t@);
    let mut order: Vec<usize> = Vec::new();
    let mut scores: Vec<u64> = Vec::new();
    let n = texts.len();
    let mut i: usize = 0;
    while i < n
        invariant
            n == texts@.len(),
            tv == texts@.map_values(|t: Vec<char>| t@),
            i <= n,
            order@.len() == scores@.len(),
            forall|k: int| 0 <= k < order@.len() ==> (#[trigger] order@[k]) < i
                && score_of(pat@, tv[order@[k] as int]) == Some(scores@[k]),
            forall|j: usize| j < i && (#[trigger] score_of(pat@, tv[j as int])) is Some ==> order@.contains(j),
            is_ordered(tv, pat@, order@),
        decreases n - i,
    {
        let s = score_chars(pat, &texts[i]);
        assert(texts@[i as int]@ == tv[i as int]);
        match s {
            Some(v) => {
                let mut pos: usize = 0;
                while pos < order.len() && scores[pos] >= v
                    invariant
                        order@.len() == scores@.len(),
                        pos <= order@.len(),
                        forall|k: int| 0 <= k < pos ==> scores@[k] >= v,
                    decreases order@.len() - pos,
                {
                    pos = pos + 1;
                }
                let ghost old_order = order@;
                let ghost old_scores = scores@;
                proof {
                    assert forall|k: int| pos <= k < old_order.len() implies old_scores[k] < v by {
                        if k > pos {
                            assert(ranks_before(tv, pat@, old_order[pos as int], old_order[k]));
                        }
                    }
                }
                order.insert(pos, i);
                scores.insert(pos, v);
                proof {
                    assert forall|k: int| 0 <= k < order@.len() implies (#[trigger] order@[k]) < i + 1
                        && score_of(pat@, tv[order@[k] as int]) == Some(scores@[k]) by {
                        if k < pos {
                            assert(order@[k] == old_order[k]);
                        } else if k > pos {
                            assert(order@[k] == old_order[k - 1]);
                        }
                    }
                    assert forall|kk: int, l: int| 0 <= kk < l < order@.len() implies ranks_before(tv, pat@, #[trigger] order@[kk], #[trigger] order@[l]) by {
                        if l < pos {
                            assert(ranks_before(tv, pat@, old_order[kk], old_order[l]));
                        } else if kk > pos {
                            assert(ranks_before(tv, pat@, old_order[kk - 1], old_order[l - 1]));
                        } else if kk < pos && l > pos {
                            assert(ranks_before(tv, pat@, old_order[kk], old_order[l - 1]));
                        } else if kk == pos {
                            assert(old_scores[l - 1] < v);
                        } else {
                            assert(old_scores[kk] >= v);
                        }
                    }
                    assert forall|j: usize| j < i + 1 && (#[trigger] score_of(pat@, tv[j as int])) is Some implies order@.contains(j) by {
                        if j == i {
                            assert(order@[pos as int] == i);
                        } else {
                            assert(old_order.contains(j));
                            let w = choose|w: int| 0 <= w < old_order.len() && old_order[w] == j;
                            if w < pos {
                                assert(order@[w] == j);
                            } else {
                                assert(order@[w + 1] == j);
                            }
                        }
                    }
                }
            },
            None => {
                proof {
                    assert forall|j: usize| j < i + 1 && (#[trigger] score_of(pat@, tv[j as int])) is Some implies order@.contains(j) by {
                        if j < i {
                        }
                    }
                }
            },
        }
        i = i + 1;
    }
    proof {
        assert forall|k: int| 0 <= k < order@.len() implies (#[trigger] order@[k]) < tv.len() && score_of(pat@, tv[order@[k] as int]) is Some by {
        }
        lemma_ranking_is_chosen(tv, pat@, order@);
    }
    order
}

} // verus!
