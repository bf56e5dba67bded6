//! The commands of the command line, and the choices they carry.
use vstd::prelude::*;

verus! {

/// The parsed command line.
pub struct Cli {
    pub command: Option<Commands>,
}

pub enum Commands {
    /// Search channels or tracks.
    Search { query: String, target: String, format: String, limit: Option<usize> },
    /// Show statistics about the data.
    Stats { format: String },
    /// Filter tracks by tag and channel.
    Filter { tag: Option<String>, channel: Option<String>, format: String, limit: Option<usize> },
    /// Run the data import pipeline.
    Import,
}

/// Which records a search looks at.
#[derive(Debug, Clone, Copy, PartialEq, Eq, Structural)]
pub enum Target {
    Channels,
    Tracks,
}

/// How results are printed.
#[derive(Debug, Clone, Copy, PartialEq, Eq, Structural)]
pub enum Format {
    Text,
    Json,
}

impl Target {
    /// `channels` or `tracks`; any other word names no target.
    pub fn parse(s: &String) -> (r: Option<Target>)
        ensures
            r == Some(Target::Channels) <==> s@ == "channels"@,
            r == Some(Target::Tracks) <==> s@ == "tracks"@,
            r is None <==> (s@ != "channels"@ && s@ != "tracks"@),
    {
        proof {
            reveal_strlit("channels");
            reveal_strlit("tracks");
            assert("channels"@.len() != "tracks"@.len());
        }
        let channels = String::from_str("channels");
        let tracks = String::from_str("tracks");
        if *s == channels {
            Some(Target::Channels)
        } else if *s == tracks {
            Some(Target::Tracks)
        } else {
            None
        }
    }
}

impl Format {
    /// `json` selects JSON; every other word selects plain text.
    pub fn parse(s: &String) -> (r: Format)
        ensures
            r == Format::Json <==> s@ == "json"@,
    {
        proof {
            reveal_strlit("json");
        }
        let json = String::from_str("json");
        if *s == json {
            Format::Json
        } else {
            Format::Text
        }
    }
}

} // verus!
