use r4_search::cli::{Format, Target};
use r4_search::matcher::{ChannelMatcher, TrackMatcher};
use r4_search::query::{compute_stats, filter_tracks, search_channels, search_tracks};
use r4_search::records::{Channel, Metadata, Track};
use r4_search::score::{score, score_chars, BONUS_CAP, PREFIX_SCORE, SUBSTRING_BASE};

fn track(title: &str, slug: &str, tags: &[&str]) -> Track {
    Track {
        title: title.to_string(),
        description: String::new(),
        slug: slug.to_string(),
        url: format!("https://example.org/{}", title),
        metadata: Metadata { tags: tags.iter().map(|t| t.to_string()).collect() },
    }
}

fn channel(name: &str, slug: &str, track_count: usize) -> Channel {
    Channel {
        name: name.to_string(),
        slug: slug.to_string(),
        track_count,
        metadata: Metadata { tags: Vec::new() },
    }
}

fn titles(names: &[&str]) -> Vec<Track> {
    names.iter().map(|n| track(n, "", &[])).collect()
}

#[test]
fn night_scenario() {
    let tracks = titles(&["Night Drive", "Nightmare", "Daylight"]);
    let mut m = TrackMatcher::new();
    m.update_items(&tracks);
    m.set_pattern("night");
    let r = m.get_matched_indices();
    assert_eq!(r, vec![0, 1]);
}

#[test]
fn empty_pattern_keeps_everything_in_order() {
    let tracks = titles(&["zeta", "alpha", "mid", ""]);
    let mut m = TrackMatcher::new();
    m.update_items(&tracks);
    m.set_pattern("");
    assert_eq!(m.get_matched_indices(), vec![0, 1, 2, 3]);
}

#[test]
fn fresh_matcher_is_empty() {
    let m = TrackMatcher::new();
    assert_eq!(m.get_matched_indices(), Vec::<usize>::new());
}

#[test]
fn empty_collection_matches_nothing() {
    let mut m = ChannelMatcher::new();
    m.update_items(&[]);
    m.set_pattern("anything");
    assert_eq!(m.get_matched_indices(), Vec::<usize>::new());
    m.set_pattern("");
    assert_eq!(m.get_matched_indices(), Vec::<usize>::new());
}

#[test]
fn reading_twice_gives_the_same_list() {
    let tracks = titles(&["abc", "xaxbxc", "cab", "abcabc"]);
    let mut m = TrackMatcher::new();
    m.update_items(&tracks);
    m.set_pattern("abc");
    let first = m.get_matched_indices();
    let second = m.get_matched_indices();
    assert_eq!(first, second);
}

#[test]
fn results_are_subsequence_matches() {
    let tracks = titles(&["a-b-c", "cba", "xxabc", "ab", "abc"]);
    let mut m = TrackMatcher::new();
    m.update_items(&tracks);
    m.set_pattern("abc");
    // prefix first, then contiguous run, then scattered
    assert_eq!(m.get_matched_indices(), vec![4, 2, 0]);
}

#[test]
fn equal_scores_keep_position_order() {
    let tracks = titles(&["rock b", "rock a", "rock c"]);
    let mut m = TrackMatcher::new();
    m.update_items(&tracks);
    m.set_pattern("rock");
    assert_eq!(m.get_matched_indices(), vec![0, 1, 2]);
}

#[test]
fn contiguous_scores_at_least_scattered() {
    let contiguous = score("night", "a night out").unwrap();
    let scattered = score("night", "no idea got here, it").unwrap();
    assert!(contiguous >= scattered);
}

#[test]
fn new_pattern_replaces_old_results() {
    let tracks = titles(&["jazz", "blues", "jazzy blues"]);
    let mut m = TrackMatcher::new();
    m.update_items(&tracks);
    m.set_pattern("jazz");
    assert_eq!(m.get_matched_indices(), vec![0, 2]);
    m.set_pattern("blues");
    assert_eq!(m.get_matched_indices(), vec![1, 2]);
}

#[test]
fn new_items_keep_the_pattern() {
    let mut m = TrackMatcher::new();
    m.set_pattern("dub");
    m.update_items(&titles(&["dub", "techno"]));
    assert_eq!(m.get_matched_indices(), vec![0]);
    m.update_items(&titles(&["house", "dubstep", "dub"]));
    assert_eq!(m.get_matched_indices(), vec![1, 2]);
}

#[test]
fn matching_ignores_case() {
    let tracks = titles(&["NIGHT DRIVE", "day"]);
    let mut m = TrackMatcher::new();
    m.update_items(&tracks);
    m.set_pattern("NiGhT");
    assert_eq!(m.get_matched_indices(), vec![0]);
}

#[test]
fn whitespace_pattern_is_literal() {
    let tracks = titles(&["nospace", "with space"]);
    let mut m = TrackMatcher::new();
    m.update_items(&tracks);
    m.set_pattern(" ");
    // every track text holds the separator spaces of its projection
    assert_eq!(m.get_matched_indices(), vec![1, 0]);
}

#[test]
fn score_prefix() {
    assert_eq!(score("night", "Night Drive"), Some(PREFIX_SCORE));
    assert_eq!(PREFIX_SCORE, 17_179_869_184);
}

#[test]
fn score_substring() {
    assert_eq!(score("drive", "Night Drive"), Some(SUBSTRING_BASE + BONUS_CAP - 6));
    assert_eq!(score("drive", "Night Drive"), Some(12_884_901_881));
}

#[test]
fn score_scattered() {
    assert_eq!(score("ndr", "night drive"), Some(1));
    assert_eq!(score("nd", "nXd"), Some(0));
}

#[test]
fn score_no_match() {
    assert_eq!(score("xyz", "night drive"), None);
    assert_eq!(score("night", "daylight"), None);
    assert_eq!(score("longer than text", "short"), None);
}

#[test]
fn score_empty_pattern() {
    assert_eq!(score("", "anything"), Some(PREFIX_SCORE));
    assert_eq!(score("", ""), Some(PREFIX_SCORE));
}

#[test]
fn score_on_chars() {
    let p: Vec<char> = "ab".chars().collect();
    let t: Vec<char> = "xab".chars().collect();
    assert_eq!(score_chars(&p, &t), Some(SUBSTRING_BASE + BONUS_CAP - 1));
    let upper: Vec<char> = "AB".chars().collect();
    assert_eq!(score_chars(&upper, &t), None);
}

#[test]
fn search_channels_by_name_and_slug() {
    let channels = vec![
        channel("Good Vibes", "goodvibes", 3),
        channel("Radio Night", "night-radio", 0),
        channel("Other", "other", 1),
    ];
    assert_eq!(search_channels(&channels, "night", None), vec![1]);
    assert_eq!(search_channels(&channels, "", None), vec![0, 1, 2]);
    assert_eq!(search_channels(&channels, "", Some(2)), vec![0, 1]);
    assert_eq!(search_channels(&channels, "", Some(0)), Vec::<usize>::new());
}

#[test]
fn search_tracks_with_limit() {
    let tracks = titles(&["b one", "a one", "one"]);
    assert_eq!(search_tracks(&tracks, "one", None), vec![2, 0, 1]);
    assert_eq!(search_tracks(&tracks, "one", Some(1)), vec![2]);
    assert_eq!(search_tracks(&tracks, "one", Some(10)), vec![2, 0, 1]);
}

#[test]
fn filter_by_tag_ignores_case() {
    let tracks = vec![
        track("a", "chan", &["Jazz", "live"]),
        track("b", "chan", &["rock"]),
        track("c", "other", &["JAZZ"]),
    ];
    assert_eq!(filter_tracks(&tracks, Some("jazz".to_string()), None, None), vec![0, 2]);
}

#[test]
fn filter_by_channel_is_exact() {
    let tracks = vec![
        track("a", "chan", &[]),
        track("b", "Chan", &[]),
        track("c", "chan", &[]),
    ];
    assert_eq!(filter_tracks(&tracks, None, Some("chan".to_string()), None), vec![0, 2]);
}

#[test]
fn filter_both_and_limit() {
    let tracks = vec![
        track("a", "chan", &["dub"]),
        track("b", "chan", &["rock"]),
        track("c", "chan", &["Dub"]),
        track("d", "else", &["dub"]),
    ];
    assert_eq!(filter_tracks(&tracks, Some("DUB".to_string()), Some("chan".to_string()), None), vec![0, 2]);
    assert_eq!(filter_tracks(&tracks, Some("dub".to_string()), Some("chan".to_string()), Some(1)), vec![0]);
    assert_eq!(filter_tracks(&tracks, None, None, None), vec![0, 1, 2, 3]);
}

#[test]
fn stats_counts() {
    let channels = vec![channel("a", "a", 2), channel("b", "b", 0), channel("c", "c", 5)];
    let tracks = titles(&["x", "y"]);
    let s = compute_stats(&channels, &tracks);
    assert_eq!(s.total_channels, 3);
    assert_eq!(s.total_tracks, 2);
    assert_eq!(s.channels_with_tracks, 2);
    let e = compute_stats(&[], &[]);
    assert_eq!(e.channels_with_tracks, 0);
}

#[test]
fn target_words() {
    assert_eq!(Target::parse(&"channels".to_string()), Some(Target::Channels));
    assert_eq!(Target::parse(&"tracks".to_string()), Some(Target::Tracks));
    assert_eq!(Target::parse(&"Tracks".to_string()), None);
    assert_eq!(Target::parse(&"".to_string()), None);
}

#[test]
fn format_words() {
    assert_eq!(Format::parse(&"json".to_string()), Format::Json);
    assert_eq!(Format::parse(&"text".to_string()), Format::Text);
    assert_eq!(Format::parse(&"yaml".to_string()), Format::Text);
}
