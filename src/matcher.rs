//! A matcher that keeps a ranked list of the records matching a pattern.
//!
//! The matcher keeps the case-folded text of each record and the case-folded
//! pattern, and ranks the texts again whenever either changes, so the list it
//! hands out always belongs to the current records and the current pattern.
use vstd::prelude::*;

use core::marker::PhantomData;

use crate::rank::{is_ranking, rank_texts, ranking};
use crate::records::{Channel, Searchable, Track};
use crate::text::{folded_chars, lower_of};

verus! {

/// The case-folded searchable texts of a sequence of records.
pub open spec fn folded_texts<R: Searchable>(items: Seq<R>) -> Seq<Seq<char>> {
    items.map_values(|x: R| lower_of(x.search_view()))
}

/// Keeps the records of one kind `R` and a pattern, and the ranking of the
/// one against the other.
pub struct Matcher<R> {
    texts: Vec<Vec<char>>,
    pattern: Vec<char>,
    matched: Vec<usize>,
    kind: PhantomData<R>,
}

/// A matcher over channels.
pub type ChannelMatcher = Matcher<Channel>;

/// A matcher over tracks.
pub type TrackMatcher = Matcher<Track>;

impl<R: Searchable> Matcher<R> {
    /// The case-folded text of each record, by position.
    pub closed spec fn texts_view(&self) -> Seq<Seq<char>> {
        self.texts@.map_values(|t: Vec<char>| t@)
    }

    /// The case-folded pattern.
    pub closed spec fn pattern_view(&self) -> Seq<char> {
        self.pattern@
    }

    /// The kept list is the ranking of the texts against the pattern.
    pub closed spec fn wf(&self) -> bool {
        &&& is_ranking(self.texts_view(), self.pattern_view(), self.matched@)
        &&& self.matched@ == ranking(self.texts_view(), self.pattern_view())
    }

    /// A matcher with no records and the empty pattern.
    pub fn new() -> (m: Self)
        ensures
            m.wf(),
            m.texts_view() == Seq::<Seq<char>>::empty(),
            m.pattern_view() == Seq::<char>::empty(),
    {
        let texts: Vec<Vec<char>> = Vec::new();
        let pattern: Vec<char> = Vec::new();
        let matched = rank_texts(&texts, &pattern);
        let m = Matcher { texts, pattern, matched, kind: PhantomData };
        assert(m.texts_view() =~= Seq::<Seq<char>>::empty());
        m
    }

    /// Replaces the records; the pattern stays.
    pub fn update_items(&mut self, items: &[R])
        requires
            old(self).wf(),
        ensures
            final(self).wf(),
            final(self).texts_view() == folded_texts(items@),
            final(self).pattern_view() == old(self).pattern_view(),
    {
        let mut texts: Vec<Vec<char>> = Vec::new();
        let n = items.len();
        let mut i: usize = 0;
        while i < n
            invariant
                n == items@.len(),
                i <= n,
                texts@.len() == i,
                texts@.map_values(|t: Vec<char>| t@) == folded_texts(items@.subrange(0, i as int)),
            decreases n - i,
        {
            let text = items[i].search_text();
            let folded = folded_chars(text.as_str());
            let ghost before = texts@;
            texts.push(folded);
            proof {
                let done = items@.subrange(0, i + 1);
                assert forall|k: int| 0 <= k < i + 1 implies texts@[k]@ == lower_of(done[k].search_view()) by {
                    if k < i {
                        assert(texts@[k] == before[k]);
                        assert(before.map_values(|t: Vec<char>| t@)[k] == folded_texts(items@.subrange(0, i as int))[k]);
                    }
                }
                assert(texts@.map_values(|t: Vec<char>| t@) =~= folded_texts(done));
            }
            i = i + 1;
        }
        assert(items@.subrange(0, n as int) =~= items@);
        self.matched = rank_texts(&texts, &self.pattern);
        self.texts = texts;
    }

    /// Sets the pattern; the records stay.
    pub fn set_pattern(&mut self, pattern: &str)
        requires
            old(self).wf(),
        ensures
            final(self).wf(),
            final(self).texts_view() == old(self).texts_view(),
            final(self).pattern_view() == lower_of(pattern@),
            pattern@.len() == 0 ==> final(self).pattern_view().len() == 0,
    {
        let folded = folded_chars(pattern);
        self.matched = rank_texts(&self.texts, &folded);
        self.pattern = folded;
    }

    /// The positions of the matching records, best first.
    pub fn get_matched_indices(&self) -> (r: Vec<usize>)
        requires
            self.wf(),
        ensures
            r@ == ranking(self.texts_view(), self.pattern_view()),
            is_ranking(self.texts_view(), self.pattern_view(), r@),
    {
        let mut r: Vec<usize> = Vec::new();
        let n = self.matched.len();
        let mut i: usize = 0;
        while i < n
            invariant
                n == self.matched@.len(),
                i <= n,
                r@ == self.matched@.subrange(0, i as int),
            decreases n - i,
        {
            r.push(self.matched[i]);
            assert(r@ =~= self.matched@.subrange(0, i + 1));
            i = i + 1;
        }
        assert(r@ =~= self.matched@);
        r
    }
}

} // verus!
