//! Scoring one pattern against one candidate text.
//!
//! A candidate matches when the pattern is a subsequence of it. Among
//! matches, a text that starts with the pattern scores highest, then a text
//! that holds the pattern as a contiguous run (an earlier run scores higher),
//! then a scattered match, scored by how many neighbouring pattern characters
//! landed next to each other.
use vstd::prelude::*;

use crate::text::{folded_chars, lower_of};

verus! {

/// Upper bound of the bonus part of a score.
pub const BONUS_CAP: u64 = 4_294_967_295;

/// Base score of a text that holds the pattern as a contiguous run.
pub const SUBSTRING_BASE: u64 = 8_589_934_592;

/// Score of a text that starts with the pattern.
pub const PREFIX_SCORE: u64 = 17_179_869_184;

/// Every character of `p` appears in `t`, in order.
pub open spec fn is_subsequence(p: Seq<char>, t: Seq<char>) -> bool
    decreases t.len(),
{
    if p.len() == 0 {
        true
    } else if t.len() == 0 {
        false
    } else if p[0] == t[0] {
        is_subsequence(p.drop_first(), t.drop_first())
    } else {
        is_subsequence(p, t.drop_first())
    }
}

/// `p` stands in `t` as a contiguous run starting at position `i`.
pub open spec fn occurs_at(p: Seq<char>, t: Seq<char>, i: int) -> bool {
    0 <= i && i + p.len() <= t.len() && t.subrange(i, i + p.len()) == p
}

/// The first position at or after `i` where `p` occurs in `t`, or -1.
pub open spec fn first_occurrence_from(p: Seq<char>, t: Seq<char>, i: int) -> int
    decreases t.len() + 1 - i,
{
    if i < 0 || i + p.len() > t.len() {
        -1
    } else if occurs_at(p, t, i) {
        i
    } else {
        first_occurrence_from(p, t, i + 1)
    }
}

/// The first position where `p` occurs in `t`, or -1.
pub open spec fn first_occurrence(p: Seq<char>, t: Seq<char>) -> int {
    first_occurrence_from(p, t, 0)
}

/// `p` occurs somewhere in `t` as a contiguous run.
pub open spec fn is_substring(p: Seq<char>, t: Seq<char>) -> bool {
    exists|i: int| occurs_at(p, t, i)
}

/// Matching the pattern greedily, leftmost first: the number of pattern
/// characters that landed right after the text character matched by the
/// pattern character before them. `linked` says whether the previous text
/// character was matched by the previous pattern character.
pub open spec fn adjacent_pairs(p: Seq<char>, t: Seq<char>, linked: bool) -> nat
    decreases t.len(),
{
    if p.len() == 0 || t.len() == 0 {
        0
    } else if p[0] == t[0] {
        (if linked { 1nat } else { 0nat }) + adjacent_pairs(p.drop_first(), t.drop_first(), true)
    } else {
        adjacent_pairs(p, t.drop_first(), false)
    }
}

/// `n`, but no more than `BONUS_CAP`.
pub open spec fn capped(n: int) -> int {
    if n < BONUS_CAP {
        n
    } else {
        BONUS_CAP as int
    }
}

/// The score of pattern `p` against text `t` (both already case-folded), or
/// `None` when `p` is not a subsequence of `t`. Higher is better.
pub open spec fn score_of(p: Seq<char>, t: Seq<char>) -> Option<u64> {
    let f = first_occurrence(p, t);
    if f == 0 {
        Some(PREFIX_SCORE)
    } else if f > 0 {
        Some((SUBSTRING_BASE + BONUS_CAP - capped(f)) as u64)
    } else if is_subsequence(p, t) {
        Some(capped(adjacent_pairs(p, t, false) as int) as u64)
    } else {
        None
    }
}

/// Putting one more character in front of the text keeps a subsequence a
/// subsequence.
proof fn lemma_subsequence_cons(p: Seq<char>, c: char, u: Seq<char>)
    requires
        is_subsequence(p, u),
    ensures
        is_subsequence(p, seq![c] + u),
    decreases u.len(), 1int,
{
    let t = seq![c] + u;
    assert(t.drop_first() =~= u);
    if p.len() > 0 && p[0] == c {
        lemma_subsequence_tail(p, u);
    }
}

/// Dropping the first pattern character keeps a subsequence a subsequence.
proof fn lemma_subsequence_tail(p: Seq<char>, u: Seq<char>)
    requires
        p.len() > 0,
        is_subsequence(p, u),
    ensures
        is_subsequence(p.drop_first(), u),
    decreases u.len(), 0int,
{
    let ud = u.drop_first();
    assert(seq![u[0]] + ud =~= u);
    if p[0] == u[0] {
        lemma_subsequence_cons(p.drop_first(), u[0], ud);
    } else {
        lemma_subsequence_tail(p, ud);
        lemma_subsequence_cons(p.drop_first(), u[0], ud);
    }
}

/// A prefix of the text is a subsequence of it.
proof fn lemma_prefix_is_subsequence(p: Seq<char>, t: Seq<char>)
    requires
        p.len() <= t.len(),
        t.subrange(0, p.len() as int) == p,
    ensures
        is_subsequence(p, t),
    decreases p.len(),
{
    if p.len() > 0 {
        assert(t[0] == t.subrange(0, p.len() as int)[0]);
        assert(t.drop_first().subrange(0, p.len() - 1) =~= p.drop_first());
        lemma_prefix_is_subsequence(p.drop_first(), t.drop_first());
    }
}

/// A contiguous occurrence is a subsequence.
pub proof fn lemma_occurrence_is_subsequence(p: Seq<char>, t: Seq<char>, i: int)
    requires
        occurs_at(p, t, i),
    ensures
        is_subsequence(p, t),
    decreases i,
{
    if i == 0 {
        lemma_prefix_is_subsequence(p, t);
    } else {
        let td = t.drop_first();
        assert(td.subrange(i - 1, i - 1 + p.len()) =~= t.subrange(i, i + p.len()));
        lemma_occurrence_is_subsequence(p, td, i - 1);
        assert(seq![t[0]] + td =~= t);
        lemma_subsequence_cons(p, t[0], td);
    }
}

/// What the search for the first occurrence finds.
proof fn lemma_first_occurrence_from(p: Seq<char>, t: Seq<char>, i: int)
    requires
        0 <= i,
    ensures
        first_occurrence_from(p, t, i) >= 0 ==> occurs_at(p, t, first_occurrence_from(p, t, i)),
        first_occurrence_from(p, t, i) == -1 || first_occurrence_from(p, t, i) >= i,
        first_occurrence_from(p, t, i) == -1 ==> forall|k: int| k >= i ==> !occurs_at(p, t, k),
    decreases t.len() + 1 - i,
{
    if i + p.len() <= t.len() && !occurs_at(p, t, i) {
        lemma_first_occurrence_from(p, t, i + 1);
        assert forall|k: int| k >= i && first_occurrence_from(p, t, i) == -1 implies !occurs_at(p, t, k) by {
            if k > i {
            }
        }
    }
}

/// A text gets a score exactly when the pattern is a subsequence of it.
pub proof fn lemma_scored_iff_subsequence(p: Seq<char>, t: Seq<char>)
    ensures
        score_of(p, t) is Some <==> is_subsequence(p, t),
{
    lemma_first_occurrence_from(p, t, 0);
    if first_occurrence(p, t) >= 0 {
        lemma_occurrence_is_subsequence(p, t, first_occurrence(p, t));
    }
}

/// A text that holds the pattern as a contiguous run scores at least as high
/// as a text that holds it only scattered.
pub proof fn law_contiguous_outscores_scattered(p: Seq<char>, t: Seq<char>, u: Seq<char>)
    requires
        is_substring(p, t),
        is_subsequence(p, u),
        !is_substring(p, u),
    ensures
        score_of(p, t) is Some,
        score_of(p, u) is Some,
        score_of(p, t)->0 >= score_of(p, u)->0,
{
    lemma_first_occurrence_from(p, t, 0);
    lemma_first_occurrence_from(p, u, 0);
    let i = choose|i: int| occurs_at(p, t, i);
    if first_occurrence(p, u) >= 0 {
        assert(occurs_at(p, u, first_occurrence(p, u)));
    }
    assert(first_occurrence(p, t) != -1);
}

/// The position of the first occurrence of `p` in `t`.
fn find_first(p: &Vec<char>, t: &Vec<char>) -> (r: Option<usize>)
    ensures
        r matches Some(i) ==> first_occurrence(p@, t@) == i,
        r is None ==> first_occurrence(p@, t@) == -1,
{
    let m = p.len();
    let n = t.len();
    if m > n {
        return None;
    }
    let mut i: usize = 0;
    while i <= n - m
        invariant
            m == p@.len(),
            n == t@.len(),
            m <= n,
            i <= n - m + 1,
            first_occurrence(p@, t@) == first_occurrence_from(p@, t@, i as int),
        decreases n - m + 1 - i,
    {
        let mut j: usize = 0;
        let mut same = true;
        while j < m
            invariant
                m == p@.len(),
                n == t@.len(),
                i + m <= n,
                j <= m,
                same ==> forall|k: int| 0 <= k < j ==> t@[i + k] == p@[k],
                !same ==> !occurs_at(p@, t@, i as int),
            decreases m - j,
        {
            if t[i + j] != p[j] {
                same = false;
                assert(t@.subrange(i as int, i + m)[j as int] != p@[j as int]);
            }
            j = j + 1;
        }
        if same {
            assert(t@.subrange(i as int, i + m) =~= p@);
            return Some(i);
        }
        if i == n - m {
            assert(first_occurrence_from(p@, t@, i + 1) == -1);
            return None;
        }
        i = i + 1;
    }
    None
}

/// Walks the text once, matching the pattern greedily: whether the whole
/// pattern was matched, and the number of adjacent pairs on the way.
fn scan_subsequence(p: &Vec<char>, t: &Vec<char>) -> (r: (bool, usize))
    ensures
        r.0 == is_subsequence(p@, t@),
        r.1 == adjacent_pairs(p@, t@, false),
{
    let m = p.len();
    let n = t.len();
    let mut i: usize = 0;
    let mut j: usize = 0;
    let mut linked = false;
    let mut count: usize = 0;
    assert(p@.skip(0) =~= p@);
    assert(t@.skip(0) =~= t@);
    while i < n && j < m
        invariant
            m == p@.len(),
            n == t@.len(),
            i <= n,
            j <= m,
            count <= i,
            is_subsequence(p@.skip(j as int), t@.skip(i as int)) == is_subsequence(p@, t@),
            count + adjacent_pairs(p@.skip(j as int), t@.skip(i as int), linked)
                == adjacent_pairs(p@, t@, false),
        decreases n - i,
    {
        let ghost ps = p@.skip(j as int);
        let ghost ts = t@.skip(i as int);
        assert(ts.drop_first() =~= t@.skip(i + 1));
        assert(ps[0] == p[j as int]);
        assert(ts[0] == t[i as int]);
        if t[i] == p[j] {
            assert(ps.drop_first() =~= p@.skip(j + 1));
            if linked {
                count = count + 1;
            }
            j = j + 1;
            linked = true;
        } else {
            linked = false;
        }
        i = i + 1;
    }
    if j == m {
        assert(p@.skip(j as int).len() == 0);
    } else {
        assert(t@.skip(i as int).len() == 0);
    }
    (j == m, count)
}

/// Scores a case-folded pattern against a case-folded text.
pub fn score_chars(p: &Vec<char>, t: &Vec<char>) -> (r: Option<u64>)
    ensures
        r == score_of(p@, t@),
{
    match find_first(p, t) {
        Some(i) => {
            if i == 0 {
                Some(PREFIX_SCORE)
            } else if i < BONUS_CAP as usize {
                Some(SUBSTRING_BASE + BONUS_CAP - i as u64)
            } else {
                Some(SUBSTRING_BASE)
            }
        },
        None => {
            let (found, pairs) = scan_subsequence(p, t);
            if !found {
                None
            } else if pairs < BONUS_CAP as usize {
                Some(pairs as u64)
            } else {
                Some(BONUS_CAP)
            }
        },
    }
}

/// Scores `pattern` against `text`, ignoring case.
pub fn score(pattern: &str, text: &str) -> (r: Option<u64>)
    ensures
        r == score_of(lower_of(pattern@), lower_of(text@)),
{
    let p = folded_chars(pattern);
    let t = folded_chars(text);
    score_chars(&p, &t)
}

} // verus!
