use bookmark_api::application::{create_state, State};
use bookmark_api::database::StoreError;
use bookmark_api::endpoint::{
    bookmarks_add, bookmarks_add_now, bookmarks_count, bookmarks_remove, bookmarks_show, bookmarks_update,
    bookmarks_update_now, unique_query, EndpointError,
};
use bookmark_api::entity::BookmarkUniqueQuery;
use bookmark_api::schema::{
    visibility_or_all, Bookmark, BookmarkVisibility, BookmarksCountQuery, BookmarksRemoveQuery, BookmarksShowQuery,
};

fn body(hash: &str, url: &str, title: &str, tags: &[&str], private: bool) -> Bookmark {
    Bookmark {
        id: None,
        hash: hash.to_string(),
        url: url.to_string(),
        title: title.to_string(),
        description: String::new(),
        thumbnail: None,
        tags: tags.iter().map(|t| t.to_string()).collect(),
        sticky: false,
        private,
        extra_data: None,
        created: None,
        updated: None,
    }
}

fn show_query(id: Option<i64>, hash: Option<&str>, url: Option<&str>) -> BookmarksShowQuery {
    BookmarksShowQuery {
        hash: hash.map(|h| h.to_string()),
        url: url.map(|u| u.to_string()),
        id,
        visibility: None,
        private_key: None,
    }
}

fn sorted(mut v: Vec<String>) -> Vec<String> {
    v.sort();
    v
}

fn count(state: &State, visibility: Option<BookmarkVisibility>) -> i64 {
    bookmarks_count(state, BookmarksCountQuery { visibility }).count
}

#[test]
fn add_then_show_by_hash_returns_tags() {
    let mut state = create_state();
    let added = bookmarks_add(&mut state, body("abc", "http://x", "X", &["a", "b"], false), 100).unwrap();
    let shown = bookmarks_show(&state, show_query(None, Some("abc"), None)).unwrap();
    assert_eq!(sorted(shown.tags.clone()), vec!["a".to_string(), "b".to_string()]);
    assert_eq!(shown, added);
}

#[test]
fn add_twice_with_same_hash_is_accepted() {
    let mut state = create_state();
    let first = bookmarks_add(&mut state, body("abc", "http://x", "X", &["a", "b"], false), 100).unwrap();
    let second = bookmarks_add(&mut state, body("abc", "http://y", "Y", &[], false), 101).unwrap();
    assert_ne!(first.id, second.id);
    let shown = bookmarks_show(&state, show_query(None, Some("abc"), None)).unwrap();
    assert_eq!(shown.id, first.id);
    assert_eq!(count(&state, None), 2);
}

#[test]
fn show_without_selector_is_bad_request() {
    let state = create_state();
    let r = bookmarks_show(&state, show_query(None, None, None));
    assert_eq!(r, Err(EndpointError::MissingSelector));
    assert_eq!(EndpointError::MissingSelector.status(), 400);
    assert_eq!(EndpointError::MissingSelector.message(), "Query must have one of id/hash/url");
}

#[test]
fn show_unknown_id_is_not_found() {
    let mut state = create_state();
    bookmarks_add(&mut state, body("h", "http://x", "X", &[], false), 1).unwrap();
    let r = bookmarks_show(&state, show_query(Some(999999), None, None));
    assert_eq!(r, Err(EndpointError::NotFound));
    assert_eq!(EndpointError::NotFound.status(), 404);
    assert_eq!(EndpointError::NotFound.message(), "Bookmark not found");
}

#[test]
fn add_then_show_by_id_returns_the_input() {
    let mut state = create_state();
    let mut input = body("h1", "http://one", "One", &["rust", "verus", "rust"], true);
    input.description = "a page".to_string();
    input.thumbnail = Some("http://one/t.png".to_string());
    input.sticky = true;
    input.extra_data = Some("{\"k\":1}".to_string());
    let added = bookmarks_add(&mut state, input.clone(), 42).unwrap();
    let id = added.id.unwrap();
    let shown = bookmarks_show(&state, show_query(Some(id), None, None)).unwrap();
    assert_eq!(shown, added);
    assert_eq!(shown.hash, input.hash);
    assert_eq!(shown.url, input.url);
    assert_eq!(shown.title, input.title);
    assert_eq!(shown.description, input.description);
    assert_eq!(shown.thumbnail, input.thumbnail);
    assert_eq!(shown.sticky, input.sticky);
    assert_eq!(shown.private, input.private);
    assert_eq!(shown.extra_data, input.extra_data);
    assert_eq!(shown.created, Some(42));
    assert_eq!(shown.updated, Some(42));
    assert_eq!(sorted(shown.tags), vec!["rust".to_string(), "verus".to_string()]);
}

#[test]
fn update_then_show_reflects_new_fields() {
    let mut state = create_state();
    let added = bookmarks_add(&mut state, body("h1", "http://one", "One", &["a"], false), 10).unwrap();
    let mut change = body("h2", "http://two", "Two", &["b", "c"], true);
    change.id = added.id;
    let updated = bookmarks_update(&mut state, change, 20).unwrap();
    let shown = bookmarks_show(&state, show_query(added.id, None, None)).unwrap();
    assert_eq!(shown, updated);
    assert_eq!(shown.id, added.id);
    assert_eq!(shown.hash, "h2");
    assert_eq!(shown.url, "http://two");
    assert_eq!(shown.title, "Two");
    assert!(shown.private);
    assert_eq!(shown.created, Some(10));
    assert_eq!(shown.updated, Some(20));
    assert_eq!(sorted(shown.tags), vec!["b".to_string(), "c".to_string()]);
    assert_eq!(bookmarks_show(&state, show_query(None, Some("h1"), None)), Err(EndpointError::NotFound));
}

#[test]
fn remove_then_show_is_not_found() {
    let mut state = create_state();
    let added = bookmarks_add(&mut state, body("h1", "http://one", "One", &["a"], false), 10).unwrap();
    let other = bookmarks_add(&mut state, body("h2", "http://two", "Two", &["a"], false), 11).unwrap();
    bookmarks_remove(&mut state, BookmarksRemoveQuery { id: added.id.unwrap() });
    assert_eq!(bookmarks_show(&state, show_query(added.id, None, None)), Err(EndpointError::NotFound));
    assert_eq!(bookmarks_show(&state, show_query(other.id, None, None)).unwrap(), other);
    assert!(state.pool.relations.iter().all(|r| Some(r.bookmark_id) != added.id));
    bookmarks_remove(&mut state, BookmarksRemoveQuery { id: 999 });
    assert_eq!(count(&state, None), 1);
}

#[test]
fn count_all_is_public_plus_private() {
    let mut state = create_state();
    assert_eq!(count(&state, None), 0);
    bookmarks_add(&mut state, body("a", "http://a", "A", &["t"], false), 1).unwrap();
    bookmarks_add(&mut state, body("b", "http://b", "B", &[], true), 2).unwrap();
    bookmarks_add(&mut state, body("c", "http://c", "C", &["t", "u"], true), 3).unwrap();
    let all = count(&state, Some(BookmarkVisibility::All));
    let public = count(&state, Some(BookmarkVisibility::Public));
    let private = count(&state, Some(BookmarkVisibility::Private));
    assert_eq!(all, 3);
    assert_eq!(public, 1);
    assert_eq!(private, 2);
    assert_eq!(all, public + private);
    let r = bookmarks_count(&state, BookmarksCountQuery { visibility: None });
    assert_eq!(r.visibility, BookmarkVisibility::All);
    assert_eq!(r.count, 3);
}

#[test]
fn show_by_id_respects_visibility() {
    let mut state = create_state();
    let added = bookmarks_add(&mut state, body("a", "http://a", "A", &[], true), 1).unwrap();
    let mut q = show_query(added.id, None, None);
    q.visibility = Some(BookmarkVisibility::Public);
    assert_eq!(bookmarks_show(&state, q.clone()), Err(EndpointError::NotFound));
    q.visibility = Some(BookmarkVisibility::Private);
    assert_eq!(bookmarks_show(&state, q).unwrap(), added);
}

#[test]
fn show_by_url() {
    let mut state = create_state();
    bookmarks_add(&mut state, body("a", "http://a", "A", &[], false), 1).unwrap();
    let b = bookmarks_add(&mut state, body("b", "http://b", "B", &[], false), 2).unwrap();
    assert_eq!(bookmarks_show(&state, show_query(None, None, Some("http://b"))).unwrap(), b);
    assert_eq!(bookmarks_show(&state, show_query(None, None, Some("http://c"))), Err(EndpointError::NotFound));
}

#[test]
fn show_prefers_id_then_hash_then_url() {
    let q = show_query(Some(3), Some("h"), Some("u"));
    assert_eq!(unique_query(q), Some(BookmarkUniqueQuery::ById { id: 3, visibility: BookmarkVisibility::All }));
    let mut q = show_query(None, Some("h"), Some("u"));
    q.private_key = Some("k".to_string());
    assert_eq!(
        unique_query(q),
        Some(BookmarkUniqueQuery::ByHash { hash: "h".to_string(), private_key: Some("k".to_string()) })
    );
    assert_eq!(unique_query(show_query(None, None, Some("u"))), Some(BookmarkUniqueQuery::ByUrl { url: "u".to_string() }));
    assert_eq!(unique_query(show_query(None, None, None)), None);
}

#[test]
fn add_with_id_is_rejected() {
    let mut state = create_state();
    let mut b = body("a", "http://a", "A", &["x"], false);
    b.id = Some(7);
    assert_eq!(bookmarks_add(&mut state, b, 1), Err(EndpointError::UnexpectedId));
    assert_eq!(EndpointError::UnexpectedId.status(), 404);
    assert_eq!(EndpointError::UnexpectedId.message(), "New bookmark must not have an ID");
    assert_eq!(count(&state, None), 0);
    assert!(state.pool.tags.is_empty());
}

#[test]
fn update_without_id_is_rejected() {
    let mut state = create_state();
    let r = bookmarks_update(&mut state, body("a", "http://a", "A", &[], false), 1);
    assert_eq!(r, Err(EndpointError::MissingId));
    assert_eq!(EndpointError::MissingId.status(), 400);
}

#[test]
fn update_of_missing_bookmark_is_not_found() {
    let mut state = create_state();
    let mut b = body("a", "http://a", "A", &["x"], false);
    b.id = Some(5);
    assert_eq!(bookmarks_update(&mut state, b, 1), Err(EndpointError::NotFound));
    assert!(state.pool.tags.is_empty());
    assert!(state.pool.bookmarks.is_empty());
}

#[test]
fn add_when_ids_are_exhausted_fails_without_writing() {
    let mut state = create_state();
    state.pool.next_bookmark_id = i64::MAX;
    let r = bookmarks_add(&mut state, body("a", "http://a", "A", &["x"], false), 1);
    assert_eq!(r, Err(EndpointError::Store(StoreError::IdsExhausted)));
    assert_eq!(EndpointError::Store(StoreError::IdsExhausted).status(), 500);
    assert!(state.pool.tags.is_empty());
    let mut state = create_state();
    state.pool.next_tag_id = i64::MAX - 1;
    let r = bookmarks_add(&mut state, body("a", "http://a", "A", &["x", "y"], false), 1);
    assert_eq!(r, Err(EndpointError::Store(StoreError::IdsExhausted)));
    assert!(state.pool.bookmarks.is_empty());
}

#[test]
fn visibility_defaults_and_names() {
    assert_eq!(visibility_or_all(None), BookmarkVisibility::All);
    assert_eq!(visibility_or_all(Some(BookmarkVisibility::Private)), BookmarkVisibility::Private);
    assert_eq!(BookmarkVisibility::All.as_str(), "all");
    assert_eq!(BookmarkVisibility::Public.as_str(), "public");
    assert_eq!(BookmarkVisibility::Private.as_str(), "private");
    assert_eq!(BookmarkVisibility::All.private_filter(), None);
    assert_eq!(BookmarkVisibility::Public.private_filter(), Some(false));
    assert_eq!(BookmarkVisibility::Private.private_filter(), Some(true));
    assert!(BookmarkVisibility::Public.admits(false));
    assert!(!BookmarkVisibility::Public.admits(true));
    assert!(BookmarkVisibility::All.admits(true));
}

#[test]
fn add_and_update_at_current_time() {
    let mut state = create_state();
    let added = bookmarks_add_now(&mut state, body("n", "http://n", "N", &["t"], false)).unwrap();
    let created = added.created.unwrap();
    assert!(created > 1_600_000_000_000_000);
    assert_eq!(added.updated, Some(created));
    let mut change = body("n2", "http://n2", "N2", &[], false);
    change.id = added.id;
    let updated = bookmarks_update_now(&mut state, change).unwrap();
    assert_eq!(updated.created, Some(created));
    assert!(updated.updated.unwrap() >= created);
    assert!(updated.tags.is_empty());
    assert_eq!(bookmarks_show(&state, show_query(added.id, None, None)).unwrap(), updated);
}
