//! The record: one captured text of the history.

use vstd::prelude::*;

verus! {

/// One captured text with its bookkeeping.
#[derive(Debug, Clone, Default, PartialEq, Eq)]
pub struct Record {
    /// Assigned by the table, increasing, never changed nor reused.
    pub id: u64,
    pub content: String,
    /// The fingerprint of `content`, the dedup key.
    pub md5: String,
    /// Milliseconds of the moment the content was last seen.
    pub create_time: u64,
    pub is_favorite: bool,
    /// The content with the search query marked; set only in search results.
    pub content_highlight: Option<String>,
}

/// A record as mathematical values.
pub struct RecordView {
    pub id: u64,
    pub content: Seq<char>,
    pub md5: Seq<char>,
    pub create_time: u64,
    pub is_favorite: bool,
    pub content_highlight: Option<Seq<char>>,
}

impl View for Record {
    type V = RecordView;

    open spec fn view(&self) -> RecordView {
        RecordView {
            id: self.id,
            content: self.content@,
            md5: self.md5@,
            create_time: self.create_time,
            is_favorite: self.is_favorite,
            content_highlight: match self.content_highlight {
                Some(h) => Some(h@),
                None => None,
            },
        }
    }
}

/// The views of a sequence of records.
pub open spec fn views(s: Seq<Record>) -> Seq<RecordView> {
    s.map_values(|r: Record| r@)
}

impl Record {
    /// A copy with the same view.
    pub fn snapshot(&self) -> (r: Record)
        ensures
            r@ == self@,
    {
        let content_highlight = match &self.content_highlight {
            Some(h) => Some(h.clone()),
            None => None,
        };
        Record {
            id: self.id,
            content: self.content.clone(),
            md5: self.md5.clone(),
            create_time: self.create_time,
            is_favorite: self.is_favorite,
            content_highlight,
        }
    }
}

} // verus!
