//! The rows that the index store hands out, as plain values.

use vstd::prelude::*;
use vstd::string::*;

verus! {

/// A stored note.
#[derive(Debug, Clone)]
pub struct NoteRecord {
    pub id: i64,
    pub path: String,
    pub title: String,
    pub content: String,
    pub frontmatter: Option<String>,
    pub created_at: String,
    pub modified_at: String,
}

/// One hit of a search.
#[derive(Debug, Clone)]
pub struct SearchResult {
    pub path: String,
    pub title: String,
    pub snippet: String,
}

/// One end of a link, as the link queries report it.
#[derive(Debug, Clone)]
pub struct LinkInfo {
    pub path: String,
    pub title: String,
    pub link_text: Option<String>,
}

/// A tag and the number of notes that carry it.
#[derive(Debug, Clone)]
pub struct TagInfo {
    pub name: String,
    pub count: i64,
}

/// A vault that was opened before.
#[derive(Debug, Clone)]
pub struct RecentVault {
    pub path: String,
    pub name: String,
    pub last_opened: String,
}

/// The paths of a sequence of link ends.
pub open spec fn link_paths(s: Seq<LinkInfo>) -> Seq<Seq<char>> {
    Seq::new(s.len(), |i: int| s[i].path@)
}

} // verus!
