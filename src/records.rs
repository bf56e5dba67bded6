//! The records that can be searched: channels and tracks.
use vstd::prelude::*;

verus! {

/// Descriptive data attached to a record.
pub struct Metadata {
    pub tags: Vec<String>,
}

/// A radio channel.
pub struct Channel {
    pub name: String,
    pub slug: String,
    pub track_count: usize,
    pub metadata: Metadata,
}

/// A track published on a channel.
pub struct Track {
    pub title: String,
    pub description: String,
    pub slug: String,
    pub url: String,
    pub metadata: Metadata,
}

/// A record that offers a text to match a query against.
pub trait Searchable {
    /// The searchable text of the record.
    spec fn search_view(&self) -> Seq<char>;

    fn search_text(&self) -> (r: String)
        ensures
            r@ == self.search_view(),
    ;
}

impl Searchable for Channel {
    /// The name and the slug, separated by a space.
    open spec fn search_view(&self) -> Seq<char> {
        self.name@ + seq![' '] + self.slug@
    }

    fn search_text(&self) -> (r: String) {
        let mut s = self.name.clone();
        proof {
            reveal_strlit(" ");
        }
        s.append(" ");
        s.append(self.slug.as_str());
        s
    }
}

impl Searchable for Track {
    /// The title, the description and the slug, separated by spaces.
    open spec fn search_view(&self) -> Seq<char> {
        self.title@ + seq![' '] + self.description@ + seq![' '] + self.slug@
    }

    fn search_text(&self) -> (r: String) {
        let mut s = self.title.clone();
        proof {
            reveal_strlit(" ");
        }
        s.append(" ");
        s.append(self.description.as_str());
        s.append(" ");
        s.append(self.slug.as_str());
        s
    }
}

} // verus!
