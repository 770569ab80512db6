use bookmark_api::database::{
    add_sync_tags, count_bookmarks_by_tags, count_bookmarks_by_visibility, delete_bookmark, fetch_bookmark,
    fetch_tags_of_bookmarks, insert_bookmark, relate_bookmark_tags, update_bookmark, Database, StoreError,
};
use bookmark_api::endpoint::bookmark_from_entity;
use bookmark_api::entity::{BookmarkUniqueQuery, UnregisteredBookmark};
use bookmark_api::schema::BookmarkVisibility;

fn fields(hash: &str, private: bool) -> UnregisteredBookmark {
    UnregisteredBookmark {
        hash: hash.to_string(),
        url: format!("http://{}", hash),
        title: hash.to_uppercase(),
        description: String::new(),
        thumbnail: None,
        sticky: false,
        private,
        extra_data: None,
    }
}

fn names(v: &[&str]) -> Vec<String> {
    v.iter().map(|s| s.to_string()).collect()
}

#[test]
fn insert_assigns_increasing_ids_and_timestamps() {
    let mut db = Database::new();
    let a = insert_bookmark(&mut db, fields("a", false), 5).unwrap();
    let b = insert_bookmark(&mut db, fields("b", false), 6).unwrap();
    assert_eq!(a.id, 1);
    assert_eq!(b.id, 2);
    assert_eq!((a.created, a.updated), (5, 5));
    assert_eq!(db.bookmarks, vec![a.clone(), b]);
    let found = fetch_bookmark(&db, BookmarkUniqueQuery::ById { id: 1, visibility: BookmarkVisibility::All });
    assert_eq!(found, Some(a));
}

#[test]
fn insert_fails_when_ids_run_out() {
    let mut db = Database::new();
    db.next_bookmark_id = i64::MAX;
    assert_eq!(insert_bookmark(&mut db, fields("a", false), 1), Err(StoreError::IdsExhausted));
    assert!(db.bookmarks.is_empty());
}

#[test]
fn update_keeps_created_and_sets_updated() {
    let mut db = Database::new();
    let a = insert_bookmark(&mut db, fields("a", false), 5).unwrap();
    let u = update_bookmark(&mut db, a.id, fields("z", true), 9).unwrap();
    assert_eq!(u.id, a.id);
    assert_eq!(u.hash, "z");
    assert_eq!(u.created, 5);
    assert_eq!(u.updated, 9);
    assert_eq!(db.bookmarks, vec![u]);
    assert_eq!(update_bookmark(&mut db, 77, fields("q", true), 9), Err(StoreError::RowNotFound));
}

#[test]
fn delete_of_unknown_id_changes_nothing() {
    let mut db = Database::new();
    let a = insert_bookmark(&mut db, fields("a", false), 5).unwrap();
    delete_bookmark(&mut db, 3);
    assert_eq!(db.bookmarks, vec![a]);
    delete_bookmark(&mut db, 1);
    assert!(db.bookmarks.is_empty());
    assert_eq!(fetch_bookmark(&db, BookmarkUniqueQuery::ByUrl { url: "http://a".to_string() }), None);
}

#[test]
fn count_by_visibility_splits() {
    let mut db = Database::new();
    insert_bookmark(&mut db, fields("a", false), 1).unwrap();
    insert_bookmark(&mut db, fields("b", true), 1).unwrap();
    insert_bookmark(&mut db, fields("c", true), 1).unwrap();
    let all = count_bookmarks_by_visibility(&db, BookmarkVisibility::All);
    let public = count_bookmarks_by_visibility(&db, BookmarkVisibility::Public);
    let private = count_bookmarks_by_visibility(&db, BookmarkVisibility::Private);
    assert_eq!((all, public, private), (3, 1, 2));
}

#[test]
fn sync_tags_twice_is_idempotent() {
    let mut db = Database::new();
    let first = add_sync_tags(&mut db, &names(&["x", "y", "x"])).unwrap();
    let table = db.tags.clone();
    let second = add_sync_tags(&mut db, &names(&["x", "y", "x"])).unwrap();
    assert_eq!(first, second);
    assert_eq!(db.tags, table);
    assert_eq!(db.tags.len(), 2);
    let ids: Vec<i64> = first.iter().map(|t| t.id).collect();
    assert_eq!(ids, vec![1, 2]);
}

#[test]
fn sync_tags_returns_existing_and_new_rows() {
    let mut db = Database::new();
    add_sync_tags(&mut db, &names(&["a", "b"])).unwrap();
    let rows = add_sync_tags(&mut db, &names(&["c", "a"])).unwrap();
    let texts: Vec<String> = rows.iter().map(|t| t.tag.clone()).collect();
    assert_eq!(texts, names(&["a", "c"]));
    assert_eq!(db.tags.len(), 3);
    assert_eq!(add_sync_tags(&mut db, &[]).unwrap(), vec![]);
}

#[test]
fn sync_tags_fails_when_ids_run_out() {
    let mut db = Database::new();
    db.next_tag_id = i64::MAX;
    assert_eq!(add_sync_tags(&mut db, &names(&["a"])), Err(StoreError::IdsExhausted));
    assert!(db.tags.is_empty());
}

#[test]
fn relate_replaces_previous_tags() {
    let mut db = Database::new();
    let b = insert_bookmark(&mut db, fields("a", false), 1).unwrap();
    let tags = add_sync_tags(&mut db, &names(&["t1", "t2"])).unwrap();
    relate_bookmark_tags(&mut db, b.id, &[tags[0].id]);
    relate_bookmark_tags(&mut db, b.id, &[tags[1].id]);
    assert_eq!(fetch_tags_of_bookmarks(&db, &[b.id]), vec![(b.id, "t2".to_string())]);
}

#[test]
fn fetch_tags_covers_several_bookmarks() {
    let mut db = Database::new();
    let a = insert_bookmark(&mut db, fields("a", false), 1).unwrap();
    let b = insert_bookmark(&mut db, fields("b", false), 1).unwrap();
    let tags = add_sync_tags(&mut db, &names(&["x", "y"])).unwrap();
    relate_bookmark_tags(&mut db, a.id, &[tags[0].id, tags[1].id]);
    relate_bookmark_tags(&mut db, b.id, &[tags[1].id, 99]);
    let pairs = fetch_tags_of_bookmarks(&db, &[a.id, b.id]);
    assert_eq!(pairs, vec![(a.id, "x".to_string()), (a.id, "y".to_string()), (b.id, "y".to_string())]);
    assert_eq!(fetch_tags_of_bookmarks(&db, &[b.id]), vec![(b.id, "y".to_string())]);
    assert_eq!(fetch_tags_of_bookmarks(&db, &[]), vec![]);
}

#[test]
fn count_by_tags_orders_by_count() {
    let mut db = Database::new();
    let a = insert_bookmark(&mut db, fields("a", false), 1).unwrap();
    let b = insert_bookmark(&mut db, fields("b", true), 1).unwrap();
    let c = insert_bookmark(&mut db, fields("c", false), 1).unwrap();
    let tags = add_sync_tags(&mut db, &names(&["x", "y", "z"])).unwrap();
    relate_bookmark_tags(&mut db, a.id, &[tags[0].id, tags[1].id]);
    relate_bookmark_tags(&mut db, b.id, &[tags[1].id, tags[2].id]);
    relate_bookmark_tags(&mut db, c.id, &[tags[1].id, tags[2].id]);
    let all = count_bookmarks_by_tags(&db, &[], BookmarkVisibility::All);
    assert_eq!(all, vec![("y".to_string(), 3), ("z".to_string(), 2), ("x".to_string(), 1)]);
    let public = count_bookmarks_by_tags(&db, &[], BookmarkVisibility::Public);
    assert_eq!(public, vec![("y".to_string(), 2), ("x".to_string(), 1), ("z".to_string(), 1)]);
    let filtered = count_bookmarks_by_tags(&db, &names(&["x", "z"]), BookmarkVisibility::Private);
    assert_eq!(filtered, vec![("z".to_string(), 1)]);
}

#[test]
fn entity_is_presented_with_its_tags() {
    let mut db = Database::new();
    let mut f = fields("a", true);
    f.thumbnail = Some("t".to_string());
    let e = insert_bookmark(&mut db, f, 8).unwrap();
    let b = bookmark_from_entity(e.clone(), names(&["p", "q"]));
    assert_eq!(b.id, Some(e.id));
    assert_eq!(b.hash, "a");
    assert_eq!(b.url, "http://a");
    assert_eq!(b.title, "A");
    assert_eq!(b.thumbnail, Some("t".to_string()));
    assert!(b.private);
    assert_eq!(b.tags, names(&["p", "q"]));
    assert_eq!(b.created, Some(8));
    assert_eq!(b.updated, Some(8));
}
