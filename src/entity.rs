//! Storage-facing rows and the lookups that select one bookmark.

use crate::schema::{admits, BookmarkVisibility};
use vstd::prelude::*;

verus! {

/// How `GET /bookmarks/show` selects a single bookmark.
#[derive(Debug, Clone, PartialEq, Eq)]
pub enum BookmarkUniqueQuery {
    ByHash { hash: String, private_key: Option<String> },
    ByUrl { url: String },
    ById { id: i64, visibility: BookmarkVisibility },
}

/// The fields of a bookmark that has no id yet.
#[derive(Debug, Clone, PartialEq, Eq)]
pub struct UnregisteredBookmark {
    pub hash: String,
    pub url: String,
    pub title: String,
    pub description: String,
    pub thumbnail: Option<String>,
    pub sticky: bool,
    pub private: bool,
    pub extra_data: Option<String>,
}

/// A stored bookmark. Timestamps are microseconds since the Unix epoch.
#[derive(Debug, Clone, PartialEq, Eq)]
pub struct Bookmark {
    pub id: i64,
    pub hash: String,
    pub url: String,
    pub title: String,
    pub description: String,
    pub thumbnail: Option<String>,
    pub sticky: bool,
    pub private: bool,
    pub extra_data: Option<String>,
    pub created: i64,
    pub updated: i64,
}

/// A stored tag.
#[derive(Debug, Clone, PartialEq, Eq)]
pub struct Tag {
    pub id: i64,
    pub tag: String,
}

/// One row of the bookmark-tag relation.
#[derive(Debug, Clone, Copy, PartialEq, Eq)]
pub struct BookmarkTagRelation {
    pub bookmark_id: i64,
    pub tag_id: i64,
}

/// Whether a stored bookmark is selected by the query. The private key of
/// a hash lookup takes no part in the selection.
pub open spec fn selects(b: Bookmark, q: BookmarkUniqueQuery) -> bool {
    match q {
        BookmarkUniqueQuery::ById { id, visibility } => b.id == id && admits(visibility, b.private),
        BookmarkUniqueQuery::ByHash { hash, .. } => b.hash@ == hash@,
        BookmarkUniqueQuery::ByUrl { url } => b.url@ == url@,
    }
}

/// A stored bookmark's fields, as given when it was written.
pub open spec fn fields_of(b: Bookmark) -> UnregisteredBookmark {
    UnregisteredBookmark {
        hash: b.hash,
        url: b.url,
        title: b.title,
        description: b.description,
        thumbnail: b.thumbnail,
        sticky: b.sticky,
        private: b.private,
        extra_data: b.extra_data,
    }
}

/// The row that results from giving `fields` the id and timestamps.
pub open spec fn row_of(id: i64, fields: UnregisteredBookmark, created: i64, updated: i64) -> Bookmark {
    Bookmark {
        id,
        hash: fields.hash,
        url: fields.url,
        title: fields.title,
        description: fields.description,
        thumbnail: fields.thumbnail,
        sticky: fields.sticky,
        private: fields.private,
        extra_data: fields.extra_data,
        created,
        updated,
    }
}

pub fn query_selects(b: &Bookmark, q: &BookmarkUniqueQuery) -> (r: bool)
    ensures
        r == selects(*b, *q),
{
    match q {
        BookmarkUniqueQuery::ById { id, visibility } => b.id == *id && visibility.admits(b.private),
        BookmarkUniqueQuery::ByHash { hash, .. } => b.hash == *hash,
        BookmarkUniqueQuery::ByUrl { url } => b.url == *url,
    }
}

pub fn clone_text(s: &Option<String>) -> (r: Option<String>)
    ensures
        r == *s,
{
    match s {
        Some(t) => Some(t.clone()),
        None => None,
    }
}

impl Bookmark {
    /// A copy equal to the original in every field.
    pub fn duplicate(&self) -> (r: Bookmark)
        ensures
            r == *self,
    {
        Bookmark {
            id: self.id,
            hash: self.hash.clone(),
            url: self.url.clone(),
            title: self.title.clone(),
            description: self.description.clone(),
            thumbnail: clone_text(&self.thumbnail),
            sticky: self.sticky,
            private: self.private,
            extra_data: clone_text(&self.extra_data),
            created: self.created,
            updated: self.updated,
        }
    }
}

impl Tag {
    /// A copy equal to the original in every field.
    pub fn duplicate(&self) -> (r: Tag)
        ensures
            r == *self,
    {
        Tag { id: self.id, tag: self.tag.clone() }
    }
}

} // verus!
