//! Wire-facing shapes: what requests carry and what responses return.

use vstd::prelude::*;

verus! {

/// Which bookmarks a query looks at.
#[derive(Debug, Clone, Copy, PartialEq, Eq, Structural)]
pub enum BookmarkVisibility {
    All,
    Public,
    Private,
}

/// The stored `private` flag that a filter asks for, or `None` when it
/// admits every bookmark.
pub open spec fn private_filter_spec(v: BookmarkVisibility) -> Option<bool> {
    match v {
        BookmarkVisibility::All => None,
        BookmarkVisibility::Public => Some(false),
        BookmarkVisibility::Private => Some(true),
    }
}

/// Whether a bookmark with the given `private` flag passes the filter.
pub open spec fn admits(v: BookmarkVisibility, private: bool) -> bool {
    match private_filter_spec(v) {
        None => true,
        Some(p) => p == private,
    }
}

impl BookmarkVisibility {
    /// Maps the filter to the storage predicate on the `private` flag.
    pub fn private_filter(self) -> (r: Option<bool>)
        ensures
            r == private_filter_spec(self),
    {
        match self {
            BookmarkVisibility::All => None,
            BookmarkVisibility::Public => Some(false),
            BookmarkVisibility::Private => Some(true),
        }
    }

    /// Whether a bookmark with the given `private` flag passes the filter.
    pub fn admits(self, private: bool) -> (r: bool)
        ensures
            r == admits(self, private),
    {
        match self.private_filter() {
            None => true,
            Some(p) => p == private,
        }
    }

    /// The wire name of the filter.
    pub fn as_str(self) -> (r: &'static str)
        ensures
            self == BookmarkVisibility::All ==> r@ == "all"@,
            self == BookmarkVisibility::Public ==> r@ == "public"@,
            self == BookmarkVisibility::Private ==> r@ == "private"@,
    {
        match self {
            BookmarkVisibility::All => "all",
            BookmarkVisibility::Public => "public",
            BookmarkVisibility::Private => "private",
        }
    }
}

/// The filter a request asked for, `All` when it named none.
pub open spec fn visibility_or_all_spec(v: Option<BookmarkVisibility>) -> BookmarkVisibility {
    match v {
        Some(x) => x,
        None => BookmarkVisibility::All,
    }
}

pub fn visibility_or_all(v: Option<BookmarkVisibility>) -> (r: BookmarkVisibility)
    ensures
        r == visibility_or_all_spec(v),
{
    match v {
        Some(x) => x,
        None => BookmarkVisibility::All,
    }
}

/// A bookmark as clients send and receive it. Timestamps are microseconds
/// since the Unix epoch; `extra_data` is serialized JSON kept verbatim.
#[derive(Debug, Clone, PartialEq, Eq)]
pub struct Bookmark {
    pub id: Option<i64>,
    pub hash: String,
    pub url: String,
    pub title: String,
    pub description: String,
    pub thumbnail: Option<String>,
    pub tags: Vec<String>,
    pub sticky: bool,
    pub private: bool,
    pub extra_data: Option<String>,
    pub created: Option<i64>,
    pub updated: Option<i64>,
}

/// Query of `GET /bookmarks/show`.
#[derive(Debug, Clone, PartialEq, Eq)]
pub struct BookmarksShowQuery {
    pub hash: Option<String>,
    pub url: Option<String>,
    pub id: Option<i64>,
    pub visibility: Option<BookmarkVisibility>,
    pub private_key: Option<String>,
}

/// Query of `DELETE /bookmarks/remove`.
#[derive(Debug, Clone, PartialEq, Eq)]
pub struct BookmarksRemoveQuery {
    pub id: i64,
}

/// Query of `GET /bookmarks/count`.
#[derive(Debug, Clone, PartialEq, Eq)]
pub struct BookmarksCountQuery {
    pub visibility: Option<BookmarkVisibility>,
}

/// Response of `GET /bookmarks/count`.
#[derive(Debug, Clone, PartialEq, Eq)]
pub struct BookmarksCountResponse {
    pub visibility: BookmarkVisibility,
    pub count: i64,
}

} // verus!
