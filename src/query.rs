//! The queries behind the command line: fuzzy search, filtering by tag and
//! channel, and counts over the data.
use vstd::prelude::*;

use crate::matcher::{folded_texts, ChannelMatcher, TrackMatcher};
use crate::rank::ranking;
use crate::records::{Channel, Track};
use crate::text::{lower_of, lowercase};

verus! {

/// The first `limit` elements of `s`, or all of them without a limit.
pub open spec fn limited<T>(s: Seq<T>, limit: Option<usize>) -> Seq<T> {
    match limit {
        Some(k) => if k < s.len() {
            s.take(k as int)
        } else {
            s
        },
        None => s,
    }
}

fn apply_limit(v: &mut Vec<usize>, limit: Option<usize>)
    ensures
        final(v)@ == limited(old(v)@, limit),
{
    if let Some(k) = limit {
        if k < v.len() {
            v.truncate(k);
        }
    }
}

/// The positions of the channels matching `query`, best first, at most
/// `limit` of them.
pub fn search_channels(channels: &[Channel], query: &str, limit: Option<usize>) -> (r: Vec<usize>)
    ensures
        r@ == limited(ranking(folded_texts(channels@), lower_of(query@)), limit),
{
    let mut matcher = ChannelMatcher::new();
    matcher.update_items(channels);
    matcher.set_pattern(query);
    let mut found = matcher.get_matched_indices();
    apply_limit(&mut found, limit);
    found
}

/// The positions of the tracks matching `query`, best first, at most
/// `limit` of them.
pub fn search_tracks(tracks: &[Track], query: &str, limit: Option<usize>) -> (r: Vec<usize>)
    ensures
        r@ == limited(ranking(folded_texts(tracks@), lower_of(query@)), limit),
{
    let mut matcher = TrackMatcher::new();
    matcher.update_items(tracks);
    matcher.set_pattern(query);
    let mut found = matcher.get_matched_indices();
    apply_limit(&mut found, limit);
    found
}

/// The track carries `tag`, ignoring case.
pub open spec fn has_tag(t: Track, tag: Seq<char>) -> bool {
    exists|k: int| 0 <= k < t.metadata.tags@.len() && lower_of(#[trigger] t.metadata.tags@[k]@) == lower_of(tag)
}

/// The track passes both filters; an absent filter passes every track.
pub open spec fn passes(t: Track, tag: Option<String>, channel: Option<String>) -> bool {
    &&& (tag matches Some(g) ==> has_tag(t, g@))
    &&& (channel matches Some(c) ==> t.slug@ == c@)
}

/// The positions below `n` of the tracks that pass the filters, in order.
pub open spec fn passing(tracks: Seq<Track>, tag: Option<String>, channel: Option<String>, n: int) -> Seq<usize>
    decreases n,
{
    if n <= 0 {
        Seq::empty()
    } else if passes(tracks[n - 1], tag, channel) {
        passing(tracks, tag, channel, n - 1).push((n - 1) as usize)
    } else {
        passing(tracks, tag, channel, n - 1)
    }
}

fn carries_tag(t: &Track, folded_tag: &String) -> (r: bool)
    ensures
        r == (exists|k: int| 0 <= k < t.metadata.tags@.len() && lower_of(#[trigger] t.metadata.tags@[k]@) == folded_tag@),
{
    let n = t.metadata.tags.len();
    let mut i: usize = 0;
    while i < n
        invariant
            n == t.metadata.tags@.len(),
            i <= n,
            forall|k: int| 0 <= k < i ==> lower_of(#[trigger] t.metadata.tags@[k]@) != folded_tag@,
        decreases n - i,
    {
        let folded = lowercase(t.metadata.tags[i].as_str());
        if folded == *folded_tag {
            return true;
        }
        i = i + 1;
    }
    false
}

/// The positions of the tracks that carry `tag` (ignoring case) and belong
/// to the channel with slug `channel`, in order, at most `limit` of them.
pub fn filter_tracks(tracks: &[Track], tag: Option<String>, channel: Option<String>, limit: Option<usize>) -> (r: Vec<usize>)
    ensures
        r@ == limited(passing(tracks@, tag, channel, tracks@.len() as int), limit),
{
    let folded_tag = match &tag {
        Some(g) => Some(lowercase(g.as_str())),
        None => None,
    };
    let mut found: Vec<usize> = Vec::new();
    let n = tracks.len();
    let mut i: usize = 0;
    while i < n
        invariant
            n == tracks@.len(),
            i <= n,
            folded_tag matches Some(f) ==> (tag matches Some(g) && f@ == lower_of(g@)),
            folded_tag is None <==> tag is None,
            found@ == passing(tracks@, tag, channel, i as int),
        decreases n - i,
    {
        let t = &tracks[i];
        let tag_ok = match &folded_tag {
            Some(f) => carries_tag(t, f),
            None => true,
        };
        let channel_ok = match &channel {
            Some(c) => t.slug == *c,
            None => true,
        };
        if tag_ok && channel_ok {
            found.push(i);
        }
        i = i + 1;
    }
    apply_limit(&mut found, limit);
    found
}

/// Counts over the loaded data.
pub struct Stats {
    pub total_channels: usize,
    pub total_tracks: usize,
    pub channels_with_tracks: usize,
}

/// The number of channels among the first `n` that have at least one track.
pub open spec fn count_with_tracks(channels: Seq<Channel>, n: int) -> nat
    decreases n,
{
    if n <= 0 {
        0
    } else {
        count_with_tracks(channels, n - 1) + if channels[n - 1].track_count > 0 { 1nat } else { 0nat }
    }
}

/// The counts shown by the statistics command.
pub fn compute_stats(channels: &[Channel], tracks: &[Track]) -> (r: Stats)
    ensures
        r.total_channels == channels@.len(),
        r.total_tracks == tracks@.len(),
        r.channels_with_tracks == count_with_tracks(channels@, channels@.len() as int),
{
    let n = channels.len();
    let mut with_tracks: usize = 0;
    let mut i: usize = 0;
    while i < n
        invariant
            n == channels@.len(),
            i <= n,
            with_tracks == count_with_tracks(channels@, i as int),
            with_tracks <= i,
        decreases n - i,
    {
        if channels[i].track_count > 0 {
            with_tracks = with_tracks + 1;
        }
        i = i + 1;
    }
    Stats { total_channels: n, total_tracks: tracks.len(), channels_with_tracks: with_tracks }
}

} // verus!
