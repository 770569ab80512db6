//! The relational store: bookmarks, tags and the relation between them.
//!
//! Every operation that can fail checks before it writes, so a failed call
//! leaves the store as it was.

use crate::entity::{query_selects, row_of, selects, Bookmark, BookmarkTagRelation, BookmarkUniqueQuery, Tag, UnregisteredBookmark};
use crate::schema::{admits, BookmarkVisibility};
use vstd::prelude::*;

verus! {

/// Why a write to the store failed.
#[derive(Debug, Clone, Copy, PartialEq, Eq, Structural)]
pub enum StoreError {
    /// No bookmark has the id that an update names.
    RowNotFound,
    /// The id sequence of the table has run out of `i64` values.
    IdsExhausted,
}

/// The store. Bookmarks and tags are kept in the order of their ids, which
/// are handed out from `next_bookmark_id` and `next_tag_id` and never reused.
/// Tag texts are unique. Bookmark hashes and urls are not held unique: two
/// bookmarks may share a hash, and a lookup by hash or url returns the one
/// stored first.
pub struct Database {
    pub bookmarks: Vec<Bookmark>,
    pub tags: Vec<Tag>,
    pub relations: Vec<BookmarkTagRelation>,
    pub next_bookmark_id: i64,
    pub next_tag_id: i64,
}

pub open spec fn bookmarks_wf(s: Seq<Bookmark>, next: i64) -> bool {
    &&& forall|i: int| 0 <= i < s.len() ==> 0 < #[trigger] s[i].id < next
    &&& forall|i: int, j: int| 0 <= i < j < s.len() ==> s[i].id < s[j].id
}

pub open spec fn tags_wf(s: Seq<Tag>, next: i64) -> bool {
    &&& forall|i: int| 0 <= i < s.len() ==> 0 < #[trigger] s[i].id < next
    &&& forall|i: int, j: int| 0 <= i < j < s.len() ==> s[i].id < s[j].id
    &&& forall|i: int, j: int| 0 <= i < s.len() && 0 <= j < s.len() && i != j ==> s[i].tag@ != s[j].tag@
}

impl Database {
    /// Ids are positive, below the next id to hand out and increasing in
    /// table order; tag texts are unique.
    pub open spec fn wf(&self) -> bool {
        &&& self.next_bookmark_id >= 1
        &&& self.next_tag_id >= 1
        &&& bookmarks_wf(self.bookmarks@, self.next_bookmark_id)
        &&& tags_wf(self.tags@, self.next_tag_id)
    }

    pub fn new() -> (r: Database)
        ensures
            r.wf(),
            r.bookmarks@.len() == 0,
            r.tags@.len() == 0,
            r.relations@.len() == 0,
    {
        Database { bookmarks: Vec::new(), tags: Vec::new(), relations: Vec::new(), next_bookmark_id: 1, next_tag_id: 1 }
    }
}

/// `i` is the first position whose bookmark the query selects.
pub open spec fn first_selected(s: Seq<Bookmark>, q: BookmarkUniqueQuery, i: int) -> bool {
    &&& 0 <= i < s.len()
    &&& selects(s[i], q)
    &&& forall|j: int| 0 <= j < i ==> !selects(#[trigger] s[j], q)
}

/// The first bookmark in table order that the query selects.
pub open spec fn fetched(s: Seq<Bookmark>, q: BookmarkUniqueQuery) -> Option<Bookmark> {
    if exists|i: int| first_selected(s, q, i) {
        Some(s[choose|i: int| first_selected(s, q, i)])
    } else {
        None
    }
}

/// Fetches the first bookmark, in id order, that the query selects.
pub fn fetch_bookmark(db: &Database, query: BookmarkUniqueQuery) -> (r: Option<Bookmark>)
    ensures
        r == fetched(db.bookmarks@, query),
{
    let ghost s = db.bookmarks@;
    let mut i: usize = 0;
    while i < db.bookmarks.len()
        invariant
            s == db.bookmarks@,
            0 <= i <= s.len(),
            forall|j: int| 0 <= j < i ==> !selects(#[trigger] s[j], query),
        decreases s.len() - i,
    {
        if query_selects(&db.bookmarks[i], &query) {
            proof {
                assert(first_selected(s, query, i as int));
                let k = choose|k: int| first_selected(s, query, k);
                assert(k == i as int) by {
                    if k < i as int {
                        assert(!selects(s[k], query));
                    } else if k > i as int {
                        assert(!selects(s[i as int], query));
                    }
                }
            }
            return Some(db.bookmarks[i].duplicate());
        }
        i += 1;
    }
    assert(!exists|k: int| first_selected(s, query, k));
    None
}

/// Inserts a new bookmark under the next id, with both timestamps set to
/// `now`.
pub fn insert_bookmark(db: &mut Database, bookmark: UnregisteredBookmark, now: i64) -> (r: Result<Bookmark, StoreError>)
    requires
        old(db).wf(),
    ensures
        final(db).wf(),
        final(db).tags@ == old(db).tags@,
        final(db).relations@ == old(db).relations@,
        final(db).next_tag_id == old(db).next_tag_id,
        r is Err <==> old(db).next_bookmark_id == i64::MAX,
        r is Err ==> r == Err::<Bookmark, StoreError>(StoreError::IdsExhausted) && final(db).bookmarks@ == old(
            db,
        ).bookmarks@ && final(db).next_bookmark_id == old(db).next_bookmark_id,
        r matches Ok(b) ==> {
            &&& b == row_of(old(db).next_bookmark_id, bookmark, now, now)
            &&& final(db).bookmarks@ == old(db).bookmarks@.push(b)
            &&& final(db).next_bookmark_id == old(db).next_bookmark_id + 1
        },
{
    if db.next_bookmark_id == i64::MAX {
        return Err(StoreError::IdsExhausted);
    }
    let id = db.next_bookmark_id;
    let row = Bookmark {
        id,
        hash: bookmark.hash,
        url: bookmark.url,
        title: bookmark.title,
        description: bookmark.description,
        thumbnail: bookmark.thumbnail,
        sticky: bookmark.sticky,
        private: bookmark.private,
        extra_data: bookmark.extra_data,
        created: now,
        updated: now,
    };
    db.next_bookmark_id = id + 1;
    db.bookmarks.push(row.duplicate());
    Ok(row)
}

/// The position of the bookmark with the given id, if one is stored.
pub fn position_of_bookmark(db: &Database, id: i64) -> (r: Option<usize>)
    ensures
        r matches Some(i) ==> i < db.bookmarks@.len() && db.bookmarks@[i as int].id == id,
        r is None ==> forall|j: int| 0 <= j < db.bookmarks@.len() ==> #[trigger] db.bookmarks@[j].id != id,
{
    let mut i: usize = 0;
    while i < db.bookmarks.len()
        invariant
            0 <= i <= db.bookmarks@.len(),
            forall|j: int| 0 <= j < i ==> #[trigger] db.bookmarks@[j].id != id,
        decreases db.bookmarks@.len() - i,
    {
        if db.bookmarks[i].id == id {
            return Some(i);
        }
        i += 1;
    }
    None
}

/// Overwrites every mutable field of the bookmark with the given id and sets
/// its `updated` to `now`; its id and `created` stay.
pub fn update_bookmark(db: &mut Database, id: i64, bookmark: UnregisteredBookmark, now: i64) -> (r: Result<Bookmark, StoreError>)
    requires
        old(db).wf(),
    ensures
        final(db).wf(),
        final(db).tags@ == old(db).tags@,
        final(db).relations@ == old(db).relations@,
        final(db).next_tag_id == old(db).next_tag_id,
        final(db).next_bookmark_id == old(db).next_bookmark_id,
        r is Err <==> forall|j: int| 0 <= j < old(db).bookmarks@.len() ==> #[trigger] old(db).bookmarks@[j].id != id,
        r is Err ==> r == Err::<Bookmark, StoreError>(StoreError::RowNotFound) && final(db).bookmarks@ == old(
            db,
        ).bookmarks@,
        r matches Ok(b) ==> exists|i: int|
            {
                &&& 0 <= i < old(db).bookmarks@.len()
                &&& #[trigger] old(db).bookmarks@[i].id == id
                &&& b == row_of(id, bookmark, old(db).bookmarks@[i].created, now)
                &&& final(db).bookmarks@ == old(db).bookmarks@.update(i, b)
            },
{
    let i = match position_of_bookmark(db, id) {
        Some(i) => i,
        None => return Err(StoreError::RowNotFound),
    };
    let row = Bookmark {
        id,
        hash: bookmark.hash,
        url: bookmark.url,
        title: bookmark.title,
        description: bookmark.description,
        thumbnail: bookmark.thumbnail,
        sticky: bookmark.sticky,
        private: bookmark.private,
        extra_data: bookmark.extra_data,
        created: db.bookmarks[i].created,
        updated: now,
    };
    db.bookmarks.set(i, row.duplicate());
    assert(final(db).bookmarks@[i as int].id == id);
    Ok(row)
}

/// The relation rows that do not belong to the bookmark, in their order.
pub open spec fn without_bookmark(rels: Seq<BookmarkTagRelation>, bookmark_id: i64) -> Seq<BookmarkTagRelation>
    decreases rels.len(),
{
    if rels.len() == 0 {
        rels
    } else {
        let rest = without_bookmark(rels.drop_last(), bookmark_id);
        if rels.last().bookmark_id == bookmark_id {
            rest
        } else {
            rest.push(rels.last())
        }
    }
}

/// Removes every relation row of the bookmark.
fn remove_relations_of(db: &mut Database, bookmark_id: i64)
    ensures
        final(db).relations@ == without_bookmark(old(db).relations@, bookmark_id),
        final(db).bookmarks@ == old(db).bookmarks@,
        final(db).tags@ == old(db).tags@,
        final(db).next_bookmark_id == old(db).next_bookmark_id,
        final(db).next_tag_id == old(db).next_tag_id,
{
    let ghost rels = db.relations@;
    let mut kept: Vec<BookmarkTagRelation> = Vec::new();
    let mut i: usize = 0;
    while i < db.relations.len()
        invariant
            rels == db.relations@,
            0 <= i <= rels.len(),
            kept@ == without_bookmark(rels.subrange(0, i as int), bookmark_id),
        decreases rels.len() - i,
    {
        let rel = db.relations[i];
        assert(rels.subrange(0, i + 1).drop_last() =~= rels.subrange(0, i as int));
        if rel.bookmark_id != bookmark_id {
            kept.push(rel);
        }
        i += 1;
    }
    assert(rels.subrange(0, rels.len() as int) =~= rels);
    db.relations = kept;
}

/// Deletes the bookmark with the given id, with its relation rows. Nothing
/// happens when no bookmark has that id.
pub fn delete_bookmark(db: &mut Database, id: i64)
    requires
        old(db).wf(),
    ensures
        final(db).wf(),
        final(db).tags@ == old(db).tags@,
        final(db).relations@ == without_bookmark(old(db).relations@, id),
        final(db).next_tag_id == old(db).next_tag_id,
        final(db).next_bookmark_id == old(db).next_bookmark_id,
        (forall|j: int| 0 <= j < old(db).bookmarks@.len() ==> #[trigger] old(db).bookmarks@[j].id != id)
            ==> final(db).bookmarks@ == old(db).bookmarks@,
        forall|i: int|
            0 <= i < old(db).bookmarks@.len() && #[trigger] old(db).bookmarks@[i].id == id
                ==> final(db).bookmarks@ == old(db).bookmarks@.remove(i),
{
    if let Some(i) = position_of_bookmark(db, id) {
        db.bookmarks.remove(i);
        assert forall|k: int| 0 <= k < old(db).bookmarks@.len() && #[trigger] old(db).bookmarks@[k].id == id implies k
            == i as int by {
            if k < i as int {
                assert(old(db).bookmarks@[k].id < old(db).bookmarks@[i as int].id);
            } else if k > i as int {
                assert(old(db).bookmarks@[i as int].id < old(db).bookmarks@[k].id);
            }
        }
    }
    remove_relations_of(db, id);
}

/// The number of bookmarks that the filter admits.
pub open spec fn count_admitted(s: Seq<Bookmark>, visibility: BookmarkVisibility) -> nat
    decreases s.len(),
{
    if s.len() == 0 {
        0
    } else {
        count_admitted(s.drop_last(), visibility) + if admits(visibility, s.last().private) {
            1nat
        } else {
            0nat
        }
    }
}

/// Increasing positive ids leave room for no more rows than the largest id.
proof fn lemma_ids_bound_len(s: Seq<Bookmark>, next: i64)
    requires
        bookmarks_wf(s, next),
        next >= 1,
    ensures
        s.len() < next,
    decreases s.len(),
{
    if s.len() > 0 {
        lemma_ids_bound_len(s.drop_last(), s.last().id);
    }
}

/// Counts the bookmarks that the filter admits.
pub fn count_bookmarks_by_visibility(db: &Database, visibility: BookmarkVisibility) -> (r: i64)
    requires
        db.wf(),
    ensures
        r == count_admitted(db.bookmarks@, visibility),
{
    let ghost s = db.bookmarks@;
    proof {
        lemma_ids_bound_len(s, db.next_bookmark_id);
    }
    let mut count: i64 = 0;
    let mut i: usize = 0;
    while i < db.bookmarks.len()
        invariant
            s == db.bookmarks@,
            s.len() < i64::MAX,
            0 <= i <= s.len(),
            0 <= count <= i,
            count == count_admitted(s.subrange(0, i as int), visibility),
        decreases s.len() - i,
    {
        assert(s.subrange(0, i + 1).drop_last() =~= s.subrange(0, i as int));
        if visibility.admits(db.bookmarks[i].private) {
            count = count + 1;
        }
        i += 1;
    }
    assert(s.subrange(0, s.len() as int) =~= s);
    count
}

/// Whether one of the names has the given text.
pub open spec fn names_contain(names: Seq<String>, x: Seq<char>) -> bool {
    exists|k: int| 0 <= k < names.len() && (#[trigger] names[k])@ == x
}

/// Whether a tag row has the given text.
pub open spec fn has_tag_text(tags: Seq<Tag>, x: Seq<char>) -> bool {
    exists|i: int| 0 <= i < tags.len() && (#[trigger] tags[i]).tag@ == x
}

/// The tag rows whose text is one of the names, in table order.
pub open spec fn select_tags(rows: Seq<Tag>, names: Seq<String>) -> Seq<Tag>
    decreases rows.len(),
{
    if rows.len() == 0 {
        rows
    } else {
        let rest = select_tags(rows.drop_last(), names);
        if names_contain(names, rows.last().tag@) {
            rest.push(rows.last())
        } else {
            rest
        }
    }
}

/// The tag table `after` keeps `before` as it was, followed by rows whose
/// texts are among the names, and holds a row for every name.
pub open spec fn tags_synced(before: Seq<Tag>, after: Seq<Tag>, names: Seq<String>) -> bool {
    &&& before.len() <= after.len()
    &&& after.subrange(0, before.len() as int) == before
    &&& forall|i: int| before.len() <= i < after.len() ==> names_contain(names, (#[trigger] after[i]).tag@)
    &&& forall|k: int| 0 <= k < names.len() ==> has_tag_text(after, (#[trigger] names[k])@)
}

fn names_contain_text(names: &[String], x: &String) -> (r: bool)
    ensures
        r == names_contain(names@, x@),
{
    let mut k: usize = 0;
    while k < names.len()
        invariant
            0 <= k <= names@.len(),
            forall|j: int| 0 <= j < k ==> (#[trigger] names@[j])@ != x@,
        decreases names@.len() - k,
    {
        if names[k] == *x {
            return true;
        }
        k += 1;
    }
    false
}

fn has_tag_text_exec(tags: &Vec<Tag>, x: &String) -> (r: bool)
    ensures
        r == has_tag_text(tags@, x@),
{
    let mut i: usize = 0;
    while i < tags.len()
        invariant
            0 <= i <= tags@.len(),
            forall|j: int| 0 <= j < i ==> (#[trigger] tags@[j]).tag@ != x@,
        decreases tags@.len() - i,
    {
        if tags[i].tag == *x {
            return true;
        }
        i += 1;
    }
    false
}

/// Creates a tag row for each name that has none, then returns the rows of
/// all the names, in table order. Fails, writing nothing, when the id
/// sequence could not cover one new row per name.
pub fn add_sync_tags(db: &mut Database, tags: &[String]) -> (r: Result<Vec<Tag>, StoreError>)
    requires
        old(db).wf(),
    ensures
        final(db).wf(),
        final(db).bookmarks@ == old(db).bookmarks@,
        final(db).relations@ == old(db).relations@,
        final(db).next_bookmark_id == old(db).next_bookmark_id,
        r is Err <==> old(db).next_tag_id + tags@.len() > i64::MAX,
        r is Err ==> r == Err::<Vec<Tag>, StoreError>(StoreError::IdsExhausted) && final(db).tags@ == old(
            db,
        ).tags@,
        r matches Ok(rows) ==> {
            &&& tags_synced(old(db).tags@, final(db).tags@, tags@)
            &&& rows@ == select_tags(final(db).tags@, tags@)
        },
{
    if tags.len() as u64 > (i64::MAX - db.next_tag_id) as u64 {
        return Err(StoreError::IdsExhausted);
    }
    let ghost before = db.tags@;
    let mut k: usize = 0;
    while k < tags.len()
        invariant
            db.wf(),
            db.bookmarks@ == old(db).bookmarks@,
            db.relations@ == old(db).relations@,
            db.next_bookmark_id == old(db).next_bookmark_id,
            before == old(db).tags@,
            0 <= k <= tags@.len(),
            db.next_tag_id <= old(db).next_tag_id + k,
            old(db).next_tag_id + tags@.len() <= i64::MAX,
            before.len() <= db.tags@.len(),
            db.tags@.subrange(0, before.len() as int) == before,
            forall|i: int| before.len() <= i < db.tags@.len() ==> names_contain(tags@, (#[trigger] db.tags@[i]).tag@),
            forall|j: int| 0 <= j < k ==> has_tag_text(db.tags@, (#[trigger] tags@[j])@),
        decreases tags@.len() - k,
    {
        let name = &tags[k];
        if !has_tag_text_exec(&db.tags, name) {
            let ghost prev = db.tags@;
            let id = db.next_tag_id;
            db.tags.push(Tag { id, tag: name.clone() });
            db.next_tag_id = id + 1;
            assert(db.tags@[prev.len() as int].tag@ == tags@[k as int]@);
            assert forall|j: int| 0 <= j < k + 1 implies has_tag_text(db.tags@, (#[trigger] tags@[j])@) by {
                if j < k {
                    let w = choose|w: int| 0 <= w < prev.len() && (#[trigger] prev[w]).tag@ == tags@[j]@;
                    assert(db.tags@[w] == prev[w]);
                } else {
                    assert(db.tags@[prev.len() as int].tag@ == tags@[j]@);
                }
            }
            assert forall|i: int| before.len() <= i < db.tags@.len() implies names_contain(
                tags@,
                (#[trigger] db.tags@[i]).tag@,
            ) by {
                if i < prev.len() {
                    assert(db.tags@[i] == prev[i]);
                } else {
                    assert(tags@[k as int]@ == db.tags@[i].tag@);
                }
            }
            assert(db.tags@.subrange(0, before.len() as int) =~= prev.subrange(0, before.len() as int));
        }
        k += 1;
    }
    let ghost all = db.tags@;
    let mut rows: Vec<Tag> = Vec::new();
    let mut i: usize = 0;
    while i < db.tags.len()
        invariant
            all == db.tags@,
            0 <= i <= all.len(),
            rows@ == select_tags(all.subrange(0, i as int), tags@),
        decreases all.len() - i,
    {
        assert(all.subrange(0, i + 1).drop_last() =~= all.subrange(0, i as int));
        if names_contain_text(tags, &db.tags[i].tag) {
            rows.push(db.tags[i].duplicate());
        }
        i += 1;
    }
    assert(all.subrange(0, all.len() as int) =~= all);
    Ok(rows)
}

/// One relation row from the bookmark to each tag id, in order.
pub open spec fn relations_for(bookmark_id: i64, tag_ids: Seq<i64>) -> Seq<BookmarkTagRelation>
    decreases tag_ids.len(),
{
    if tag_ids.len() == 0 {
        Seq::empty()
    } else {
        relations_for(bookmark_id, tag_ids.drop_last()).push(
            BookmarkTagRelation { bookmark_id, tag_id: tag_ids.last() },
        )
    }
}

/// Replaces the bookmark's relation rows by one row for each tag id.
pub fn relate_bookmark_tags(db: &mut Database, bookmark_id: i64, tag_ids: &[i64])
    ensures
        final(db).relations@ == without_bookmark(old(db).relations@, bookmark_id) + relations_for(
            bookmark_id,
            tag_ids@,
        ),
        final(db).bookmarks@ == old(db).bookmarks@,
        final(db).tags@ == old(db).tags@,
        final(db).next_bookmark_id == old(db).next_bookmark_id,
        final(db).next_tag_id == old(db).next_tag_id,
{
    remove_relations_of(db, bookmark_id);
    let ghost kept = db.relations@;
    let mut i: usize = 0;
    while i < tag_ids.len()
        invariant
            0 <= i <= tag_ids@.len(),
            db.relations@ == kept + relations_for(bookmark_id, tag_ids@.subrange(0, i as int)),
            db.bookmarks@ == old(db).bookmarks@,
            db.tags@ == old(db).tags@,
            db.next_bookmark_id == old(db).next_bookmark_id,
            db.next_tag_id == old(db).next_tag_id,
            kept == without_bookmark(old(db).relations@, bookmark_id),
        decreases tag_ids@.len() - i,
    {
        assert(tag_ids@.subrange(0, i + 1).drop_last() =~= tag_ids@.subrange(0, i as int));
        db.relations.push(BookmarkTagRelation { bookmark_id, tag_id: tag_ids[i] });
        assert(db.relations@ =~= kept + relations_for(bookmark_id, tag_ids@.subrange(0, i + 1)));
        i += 1;
    }
    assert(tag_ids@.subrange(0, tag_ids@.len() as int) =~= tag_ids@);
}

/// The text of the tag row with the given id.
pub open spec fn tag_text(tags: Seq<Tag>, tag_id: i64) -> Option<String> {
    if exists|i: int| 0 <= i < tags.len() && (#[trigger] tags[i]).id == tag_id {
        Some(tags[choose|i: int| 0 <= i < tags.len() && (#[trigger] tags[i]).id == tag_id].tag)
    } else {
        None
    }
}

/// The (bookmark id, tag text) pairs of the relation rows whose bookmark is
/// one of `ids` and whose tag is stored, in relation order.
pub open spec fn tag_pairs(rels: Seq<BookmarkTagRelation>, tags: Seq<Tag>, ids: Seq<i64>) -> Seq<(i64, String)>
    decreases rels.len(),
{
    if rels.len() == 0 {
        Seq::empty()
    } else {
        let rest = tag_pairs(rels.drop_last(), tags, ids);
        let rel = rels.last();
        if ids.contains(rel.bookmark_id) {
            match tag_text(tags, rel.tag_id) {
                Some(t) => rest.push((rel.bookmark_id, t)),
                None => rest,
            }
        } else {
            rest
        }
    }
}

fn find_tag_text(db: &Database, tag_id: i64) -> (r: Option<String>)
    requires
        db.wf(),
    ensures
        r == tag_text(db.tags@, tag_id),
{
    let ghost s = db.tags@;
    let mut i: usize = 0;
    while i < db.tags.len()
        invariant
            s == db.tags@,
            db.wf(),
            0 <= i <= s.len(),
            forall|j: int| 0 <= j < i ==> (#[trigger] s[j]).id != tag_id,
        decreases s.len() - i,
    {
        if db.tags[i].id == tag_id {
            proof {
                let k = choose|k: int| 0 <= k < s.len() && (#[trigger] s[k]).id == tag_id;
                if k < i as int {
                    assert(s[k].id != tag_id);
                } else if k > i as int {
                    assert(s[i as int].id < s[k].id);
                }
            }
            return Some(db.tags[i].tag.clone());
        }
        i += 1;
    }
    None
}

fn contains_id(ids: &[i64], x: i64) -> (r: bool)
    ensures
        r == ids@.contains(x),
{
    let mut k: usize = 0;
    while k < ids.len()
        invariant
            0 <= k <= ids@.len(),
            forall|j: int| 0 <= j < k ==> ids@[j] != x,
        decreases ids@.len() - k,
    {
        if ids[k] == x {
            assert(ids@[k as int] == x);
            return true;
        }
        k += 1;
    }
    false
}

/// The tag texts of the given bookmarks, as (bookmark id, tag text) pairs.
pub fn fetch_tags_of_bookmarks(db: &Database, bookmark_ids: &[i64]) -> (r: Vec<(i64, String)>)
    requires
        db.wf(),
    ensures
        r@ == tag_pairs(db.relations@, db.tags@, bookmark_ids@),
{
    let ghost rels = db.relations@;
    let mut pairs: Vec<(i64, String)> = Vec::new();
    let mut i: usize = 0;
    while i < db.relations.len()
        invariant
            rels == db.relations@,
            db.wf(),
            0 <= i <= rels.len(),
            pairs@ == tag_pairs(rels.subrange(0, i as int), db.tags@, bookmark_ids@),
        decreases rels.len() - i,
    {
        assert(rels.subrange(0, i + 1).drop_last() =~= rels.subrange(0, i as int));
        let rel = db.relations[i];
        if contains_id(bookmark_ids, rel.bookmark_id) {
            if let Some(t) = find_tag_text(db, rel.tag_id) {
                pairs.push((rel.bookmark_id, t));
            }
        }
        i += 1;
    }
    assert(rels.subrange(0, rels.len() as int) =~= rels);
    pairs
}

/// Every bookmark is public or private, never both: the count over all
/// bookmarks is the public count plus the private count.
pub proof fn lemma_count_all_is_public_plus_private(s: Seq<Bookmark>)
    ensures
        count_admitted(s, BookmarkVisibility::All) == count_admitted(s, BookmarkVisibility::Public) + count_admitted(
            s,
            BookmarkVisibility::Private,
        ),
    decreases s.len(),
{
    if s.len() > 0 {
        lemma_count_all_is_public_plus_private(s.drop_last());
    }
}

/// Syncing the same names twice: the second sync adds no tag row, so the
/// table and the returned rows (ids included) are those of the first, and
/// no two rows share a text.
pub proof fn lemma_sync_tags_idempotent(
    t0: Seq<Tag>,
    t1: Seq<Tag>,
    t2: Seq<Tag>,
    next1: i64,
    next2: i64,
    names: Seq<String>,
)
    requires
        tags_wf(t1, next1),
        tags_wf(t2, next2),
        tags_synced(t0, t1, names),
        tags_synced(t1, t2, names),
    ensures
        t2 == t1,
        select_tags(t2, names) == select_tags(t1, names),
        forall|i: int, j: int| 0 <= i < t2.len() && 0 <= j < t2.len() && i != j ==> t2[i].tag@ != t2[j].tag@,
{
    if t2.len() > t1.len() {
        let i = t1.len() as int;
        assert(names_contain(names, t2[i].tag@));
        let k = choose|k: int| 0 <= k < names.len() && (#[trigger] names[k])@ == t2[i].tag@;
        assert(has_tag_text(t1, names[k]@));
        let w = choose|w: int| 0 <= w < t1.len() && (#[trigger] t1[w]).tag@ == names[k]@;
        assert(t2.subrange(0, t1.len() as int)[w] == t2[w]);
        assert(t2[w].tag@ == t2[i].tag@);
    }
    assert(t2 =~= t2.subrange(0, t1.len() as int));
}

/// The pairs of two relation tables laid end to end are the pairs of each.
pub proof fn lemma_tag_pairs_concat(
    x: Seq<BookmarkTagRelation>,
    y: Seq<BookmarkTagRelation>,
    tags: Seq<Tag>,
    ids: Seq<i64>,
)
    ensures
        tag_pairs(x + y, tags, ids) == tag_pairs(x, tags, ids) + tag_pairs(y, tags, ids),
    decreases y.len(),
{
    if y.len() == 0 {
        assert(x + y =~= x);
        assert(tag_pairs(x, tags, ids) + tag_pairs(y, tags, ids) =~= tag_pairs(x, tags, ids));
    } else {
        assert((x + y).drop_last() =~= x + y.drop_last());
        assert((x + y).last() == y.last());
        lemma_tag_pairs_concat(x, y.drop_last(), tags, ids);
        let a = tag_pairs(x, tags, ids);
        let c = tag_pairs(y.drop_last(), tags, ids);
        assert forall|e: (i64, String)| (a + c).push(e) == a + c.push(e) by {
            assert((a + c).push(e) =~= a + c.push(e));
        }
    }
}

/// Once a bookmark's relation rows are removed, none of its pairs remain.
pub proof fn lemma_without_bookmark_has_no_pairs(rels: Seq<BookmarkTagRelation>, tags: Seq<Tag>, b: i64)
    ensures
        tag_pairs(without_bookmark(rels, b), tags, seq![b]) == Seq::<(i64, String)>::empty(),
    decreases rels.len(),
{
    if rels.len() > 0 {
        lemma_without_bookmark_has_no_pairs(rels.drop_last(), tags, b);
        let w = without_bookmark(rels.drop_last(), b);
        if rels.last().bookmark_id != b {
            assert(w.push(rels.last()).drop_last() =~= w);
            assert(!seq![b].contains(rels.last().bookmark_id)) by {
                if seq![b].contains(rels.last().bookmark_id) {
                    let k = choose|k: int| 0 <= k < 1 && seq![b][k] == rels.last().bookmark_id;
                    assert(seq![b][k] == b);
                }
            }
        }
    }
}

/// After the bookmark's tags are replaced by `[t1]` and then by `[t2]`, its
/// only pair is that of `t2`, when `t2` is a stored tag.
pub proof fn lemma_relate_replaces(
    rels0: Seq<BookmarkTagRelation>,
    rels1: Seq<BookmarkTagRelation>,
    rels2: Seq<BookmarkTagRelation>,
    tags: Seq<Tag>,
    b: i64,
    t1: i64,
    t2: i64,
)
    requires
        rels1 == without_bookmark(rels0, b) + relations_for(b, seq![t1]),
        rels2 == without_bookmark(rels1, b) + relations_for(b, seq![t2]),
    ensures
        tag_pairs(rels2, tags, seq![b]) == match tag_text(tags, t2) {
            Some(s) => seq![(b, s)],
            None => Seq::<(i64, String)>::empty(),
        },
{
    let w = without_bookmark(rels1, b);
    let r = relations_for(b, seq![t2]);
    lemma_tag_pairs_concat(w, r, tags, seq![b]);
    lemma_without_bookmark_has_no_pairs(rels1, tags, b);
    assert(seq![t2].drop_last() =~= Seq::<i64>::empty());
    assert(seq![t2].last() == t2);
    assert(relations_for(b, Seq::<i64>::empty()) == Seq::<BookmarkTagRelation>::empty());
    let rel = BookmarkTagRelation { bookmark_id: b, tag_id: t2 };
    assert(r =~= seq![rel]);
    assert(r.drop_last() =~= Seq::<BookmarkTagRelation>::empty());
    assert(r.last() == rel);
    assert(tag_pairs(Seq::<BookmarkTagRelation>::empty(), tags, seq![b]) == Seq::<(i64, String)>::empty());
    assert(seq![b][0] == b);
    assert(seq![b].contains(b));
    let p = tag_pairs(r, tags, seq![b]);
    assert(Seq::<(i64, String)>::empty() + p =~= p);
    match tag_text(tags, t2) {
        Some(s) => {
            assert(p =~= seq![(b, s)]);
        },
        None => {
            assert(p =~= Seq::<(i64, String)>::empty());
        },
    }
}

/// A stored bookmark has the id and passes the filter.
pub open spec fn bookmark_admitted(bookmarks: Seq<Bookmark>, id: i64, visibility: BookmarkVisibility) -> bool {
    exists|i: int| 0 <= i < bookmarks.len() && (#[trigger] bookmarks[i]).id == id && admits(visibility, bookmarks[i].private)
}

/// The relation rows of the tag whose bookmark is stored and admitted.
pub open spec fn tag_use_count(
    rels: Seq<BookmarkTagRelation>,
    bookmarks: Seq<Bookmark>,
    tag_id: i64,
    visibility: BookmarkVisibility,
) -> nat
    decreases rels.len(),
{
    if rels.len() == 0 {
        0
    } else {
        tag_use_count(rels.drop_last(), bookmarks, tag_id, visibility) + if rels.last().tag_id == tag_id
            && bookmark_admitted(bookmarks, rels.last().bookmark_id, visibility) {
            1nat
        } else {
            0nat
        }
    }
}

/// An empty filter takes every tag; otherwise the tag's text must be in it.
pub open spec fn tag_filtered(filter: Seq<String>, t: Tag) -> bool {
    filter.len() == 0 || names_contain(filter, t.tag@)
}

/// The (tag text, count) groups with a positive count, in tag table order.
pub open spec fn tag_groups(
    tags: Seq<Tag>,
    rels: Seq<BookmarkTagRelation>,
    bookmarks: Seq<Bookmark>,
    filter: Seq<String>,
    visibility: BookmarkVisibility,
) -> Seq<(String, i64)>
    decreases tags.len(),
{
    if tags.len() == 0 {
        Seq::empty()
    } else {
        let rest = tag_groups(tags.drop_last(), rels, bookmarks, filter, visibility);
        let t = tags.last();
        let c = tag_use_count(rels, bookmarks, t.id, visibility);
        if tag_filtered(filter, t) && c > 0 {
            rest.push((t.tag, c as i64))
        } else {
            rest
        }
    }
}

/// `p` is where a group with count `c` goes in `s`: after every group whose
/// count is at least `c`.
pub open spec fn is_insert_pos(s: Seq<(String, i64)>, c: i64, p: int) -> bool {
    &&& 0 <= p <= s.len()
    &&& forall|j: int| 0 <= j < p ==> (#[trigger] s[j]).1 >= c
    &&& p < s.len() ==> s[p].1 < c
}

pub open spec fn insert_desc(s: Seq<(String, i64)>, g: (String, i64)) -> Seq<(String, i64)> {
    s.insert(choose|p: int| is_insert_pos(s, g.1, p), g)
}

/// The groups ordered by count, largest first; groups of equal count keep
/// their order.
pub open spec fn sort_by_count_desc(s: Seq<(String, i64)>) -> Seq<(String, i64)>
    decreases s.len(),
{
    if s.len() == 0 {
        s
    } else {
        insert_desc(sort_by_count_desc(s.drop_last()), s.last())
    }
}

pub open spec fn count_desc(s: Seq<(String, i64)>) -> bool {
    forall|i: int, j: int| 0 <= i < j < s.len() ==> s[i].1 >= s[j].1
}

fn bookmark_admitted_exec(db: &Database, id: i64, visibility: BookmarkVisibility) -> (r: bool)
    requires
        db.wf(),
    ensures
        r == bookmark_admitted(db.bookmarks@, id, visibility),
{
    match position_of_bookmark(db, id) {
        Some(i) => {
            let ghost s = db.bookmarks@;
            if !visibility.admits(db.bookmarks[i].private) {
                assert forall|k: int| 0 <= k < s.len() && (#[trigger] s[k]).id == id implies !admits(
                    visibility,
                    s[k].private,
                ) by {
                    if k < i as int {
                        assert(s[k].id < s[i as int].id);
                    } else if k > i as int {
                        assert(s[i as int].id < s[k].id);
                    }
                }
            }
            visibility.admits(db.bookmarks[i].private)
        },
        None => false,
    }
}

fn tag_use_count_exec(db: &Database, tag_id: i64, visibility: BookmarkVisibility) -> (r: i64)
    requires
        db.wf(),
        db.relations@.len() < i64::MAX,
    ensures
        r == tag_use_count(db.relations@, db.bookmarks@, tag_id, visibility),
{
    let ghost rels = db.relations@;
    let mut count: i64 = 0;
    let mut i: usize = 0;
    while i < db.relations.len()
        invariant
            rels == db.relations@,
            db.wf(),
            rels.len() < i64::MAX,
            0 <= i <= rels.len(),
            0 <= count <= i,
            count == tag_use_count(rels.subrange(0, i as int), db.bookmarks@, tag_id, visibility),
        decreases rels.len() - i,
    {
        assert(rels.subrange(0, i + 1).drop_last() =~= rels.subrange(0, i as int));
        let rel = db.relations[i];
        if rel.tag_id == tag_id && bookmark_admitted_exec(db, rel.bookmark_id, visibility) {
            count = count + 1;
        }
        i += 1;
    }
    assert(rels.subrange(0, rels.len() as int) =~= rels);
    count
}

fn insert_by_count(groups: &mut Vec<(String, i64)>, g: (String, i64))
    requires
        count_desc(old(groups)@),
    ensures
        final(groups)@ == insert_desc(old(groups)@, g),
        count_desc(final(groups)@),
{
    let ghost s = groups@;
    let mut p: usize = 0;
    while p < groups.len() && groups[p].1 >= g.1
        invariant
            s == groups@,
            0 <= p <= s.len(),
            forall|j: int| 0 <= j < p ==> (#[trigger] s[j]).1 >= g.1,
        decreases s.len() - p,
    {
        p += 1;
    }
    assert(is_insert_pos(s, g.1, p as int));
    proof {
        let k = choose|k: int| is_insert_pos(s, g.1, k);
        if k < p as int {
            assert(s[k].1 >= g.1);
        } else if k > p as int {
            assert(s[p as int].1 >= g.1);
        }
    }
    let ghost c = g.1;
    groups.insert(p, g);
    assert forall|i: int, j: int| 0 <= i < j < groups@.len() implies groups@[i].1 >= groups@[j].1 by {
        if j < p {
        } else if j == p {
            assert(groups@[i] == s[i]);
        } else if i == p {
            assert(groups@[j] == s[j - 1]);
            assert(s[p as int].1 < c);
            if j - 1 > p {
                assert(s[p as int].1 >= s[j - 1].1);
            }
        } else if i < p {
            assert(groups@[i] == s[i]);
            assert(groups@[j] == s[j - 1]);
        } else {
            assert(groups@[i] == s[i - 1]);
            assert(groups@[j] == s[j - 1]);
        }
    }
}

/// Counts, for each tag whose text is in `tags` (every tag when `tags` is
/// empty), its relation rows whose bookmark passes the filter; returns the
/// groups with a positive count, largest count first.
pub fn count_bookmarks_by_tags(db: &Database, tags: &[String], visibility: BookmarkVisibility) -> (r: Vec<(String, i64)>)
    requires
        db.wf(),
        db.relations@.len() < i64::MAX,
    ensures
        r@ == sort_by_count_desc(tag_groups(db.tags@, db.relations@, db.bookmarks@, tags@, visibility)),
        count_desc(r@),
{
    let ghost all = db.tags@;
    let mut groups: Vec<(String, i64)> = Vec::new();
    let mut i: usize = 0;
    while i < db.tags.len()
        invariant
            all == db.tags@,
            db.wf(),
            db.relations@.len() < i64::MAX,
            0 <= i <= all.len(),
            groups@ == sort_by_count_desc(tag_groups(all.subrange(0, i as int), db.relations@, db.bookmarks@, tags@, visibility)),
            count_desc(groups@),
        decreases all.len() - i,
    {
        let ghost prev = all.subrange(0, i as int);
        assert(all.subrange(0, i + 1).drop_last() =~= prev);
        let t = &db.tags[i];
        if tags.len() == 0 || names_contain_text(tags, &t.tag) {
            let c = tag_use_count_exec(db, t.id, visibility);
            if c > 0 {
                let ghost before = tag_groups(prev, db.relations@, db.bookmarks@, tags@, visibility);
                assert(before.push((t.tag, c)).drop_last() =~= before);
                insert_by_count(&mut groups, (t.tag.clone(), c));
            }
        }
        i += 1;
    }
    assert(all.subrange(0, all.len() as int) =~= all);
    groups
}

} // verus!
