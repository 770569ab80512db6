//! Request handlers, free of transport: each takes the decoded request and
//! the process state and returns the response value or a rejection.

use crate::application::State;
use crate::database::{
    add_sync_tags, bookmarks_wf, count_admitted, count_bookmarks_by_visibility, delete_bookmark, fetch_bookmark,
    fetch_tags_of_bookmarks, fetched, first_selected, has_tag_text, insert_bookmark, lemma_tag_pairs_concat,
    lemma_without_bookmark_has_no_pairs, names_contain, position_of_bookmark, relate_bookmark_tags, relations_for,
    select_tags, tag_pairs, tag_text, tags_synced, tags_wf, update_bookmark, without_bookmark, StoreError,
};
use crate::entity::{
    row_of, selects, Bookmark as EntityBookmark, BookmarkTagRelation, BookmarkUniqueQuery, Tag, UnregisteredBookmark,
};
use crate::schema::{
    admits, visibility_or_all, visibility_or_all_spec, Bookmark, BookmarkVisibility, BookmarksCountQuery,
    BookmarksCountResponse, BookmarksRemoveQuery, BookmarksShowQuery,
};
use vstd::prelude::*;

verus! {

/// Why a request was turned away.
#[derive(Debug, Clone, Copy, PartialEq, Eq, Structural)]
pub enum EndpointError {
    /// A show query named none of id, hash and url.
    MissingSelector,
    /// No bookmark matched.
    NotFound,
    /// A new bookmark came with an id.
    UnexpectedId,
    /// An update came without an id.
    MissingId,
    /// The store could not take the write.
    Store(StoreError),
}

impl EndpointError {
    /// The HTTP status of the rejection.
    pub fn status(&self) -> (r: u16)
        ensures
            *self == EndpointError::MissingSelector ==> r == 400,
            *self == EndpointError::NotFound ==> r == 404,
            *self == EndpointError::UnexpectedId ==> r == 404,
            *self == EndpointError::MissingId ==> r == 400,
            *self is Store ==> r == 500,
    {
        match self {
            EndpointError::MissingSelector => 400,
            EndpointError::NotFound => 404,
            EndpointError::UnexpectedId => 404,
            EndpointError::MissingId => 400,
            EndpointError::Store(_) => 500,
        }
    }

    /// The body sent with the rejection.
    pub fn message(&self) -> (r: &'static str)
        ensures
            *self == EndpointError::MissingSelector ==> r@ == "Query must have one of id/hash/url"@,
            *self == EndpointError::NotFound ==> r@ == "Bookmark not found"@,
            *self == EndpointError::UnexpectedId ==> r@ == "New bookmark must not have an ID"@,
            *self == EndpointError::MissingId ==> r@ == "Bookmark to update must have an ID"@,
            *self is Store ==> r@ == "Internal server error"@,
    {
        match self {
            EndpointError::MissingSelector => "Query must have one of id/hash/url",
            EndpointError::NotFound => "Bookmark not found",
            EndpointError::UnexpectedId => "New bookmark must not have an ID",
            EndpointError::MissingId => "Bookmark to update must have an ID",
            EndpointError::Store(_) => "Internal server error",
        }
    }
}

/// The selector of a show query: the id if given, else the hash, else the url.
pub open spec fn unique_query_spec(q: BookmarksShowQuery) -> Option<BookmarkUniqueQuery> {
    match q.id {
        Some(id) => Some(BookmarkUniqueQuery::ById { id, visibility: visibility_or_all_spec(q.visibility) }),
        None => match q.hash {
            Some(hash) => Some(BookmarkUniqueQuery::ByHash { hash, private_key: q.private_key }),
            None => match q.url {
                Some(url) => Some(BookmarkUniqueQuery::ByUrl { url }),
                None => None,
            },
        },
    }
}

pub fn unique_query(q: BookmarksShowQuery) -> (r: Option<BookmarkUniqueQuery>)
    ensures
        r == unique_query_spec(q),
{
    if let Some(id) = q.id {
        Some(BookmarkUniqueQuery::ById { id, visibility: visibility_or_all(q.visibility) })
    } else if let Some(hash) = q.hash {
        Some(BookmarkUniqueQuery::ByHash { hash, private_key: q.private_key })
    } else if let Some(url) = q.url {
        Some(BookmarkUniqueQuery::ByUrl { url })
    } else {
        None
    }
}

/// `r` presents the stored bookmark `e` with the given tag texts.
pub open spec fn presents(r: Bookmark, e: EntityBookmark, tags: Seq<String>) -> bool {
    &&& r.id == Some(e.id)
    &&& r.hash == e.hash
    &&& r.url == e.url
    &&& r.title == e.title
    &&& r.description == e.description
    &&& r.thumbnail == e.thumbnail
    &&& r.tags@ == tags
    &&& r.sticky == e.sticky
    &&& r.private == e.private
    &&& r.extra_data == e.extra_data
    &&& r.created == Some(e.created)
    &&& r.updated == Some(e.updated)
}

/// The fields of a request body that the store keeps in the bookmark row.
pub open spec fn fields_of_body(b: Bookmark) -> UnregisteredBookmark {
    UnregisteredBookmark {
        hash: b.hash,
        url: b.url,
        title: b.title,
        description: b.description,
        thumbnail: b.thumbnail,
        sticky: b.sticky,
        private: b.private,
        extra_data: b.extra_data,
    }
}

pub open spec fn second_of(pairs: Seq<(i64, String)>) -> Seq<String> {
    pairs.map_values(|p: (i64, String)| p.1)
}

pub open spec fn texts_of(rows: Seq<Tag>) -> Seq<String> {
    rows.map_values(|t: Tag| t.tag)
}

pub open spec fn ids_of(rows: Seq<Tag>) -> Seq<i64> {
    rows.map_values(|t: Tag| t.id)
}

/// Presents a stored bookmark with its tag texts.
pub fn bookmark_from_entity(entity: EntityBookmark, tags: Vec<String>) -> (r: Bookmark)
    ensures
        presents(r, entity, tags@),
{
    Bookmark {
        id: Some(entity.id),
        hash: entity.hash,
        url: entity.url,
        title: entity.title,
        description: entity.description,
        thumbnail: entity.thumbnail,
        tags,
        sticky: entity.sticky,
        private: entity.private,
        extra_data: entity.extra_data,
        created: Some(entity.created),
        updated: Some(entity.updated),
    }
}

fn second_parts(pairs: Vec<(i64, String)>) -> (r: Vec<String>)
    ensures
        r@ == second_of(pairs@),
{
    let mut r: Vec<String> = Vec::new();
    let mut i: usize = 0;
    while i < pairs.len()
        invariant
            0 <= i <= pairs@.len(),
            r@ == second_of(pairs@.subrange(0, i as int)),
        decreases pairs@.len() - i,
    {
        r.push(pairs[i].1.clone());
        assert(r@ =~= second_of(pairs@.subrange(0, i + 1)));
        i += 1;
    }
    assert(pairs@.subrange(0, pairs@.len() as int) =~= pairs@);
    r
}

fn split_tags(rows: &Vec<Tag>) -> (r: (Vec<i64>, Vec<String>))
    ensures
        r.0@ == ids_of(rows@),
        r.1@ == texts_of(rows@),
{
    let mut ids: Vec<i64> = Vec::new();
    let mut texts: Vec<String> = Vec::new();
    let mut i: usize = 0;
    while i < rows.len()
        invariant
            0 <= i <= rows@.len(),
            ids@ == ids_of(rows@.subrange(0, i as int)),
            texts@ == texts_of(rows@.subrange(0, i as int)),
        decreases rows@.len() - i,
    {
        ids.push(rows[i].id);
        texts.push(rows[i].tag.clone());
        assert(ids@ =~= ids_of(rows@.subrange(0, i + 1)));
        assert(texts@ =~= texts_of(rows@.subrange(0, i + 1)));
        i += 1;
    }
    assert(rows@.subrange(0, rows@.len() as int) =~= rows@);
    (ids, texts)
}

/// What `GET /bookmarks/show` answers on the given store.
pub open spec fn show_result(state: State, q: BookmarksShowQuery, r: Result<Bookmark, EndpointError>) -> bool {
    match unique_query_spec(q) {
        None => r == Err::<Bookmark, EndpointError>(EndpointError::MissingSelector),
        Some(uq) => match fetched(state.pool.bookmarks@, uq) {
            None => r == Err::<Bookmark, EndpointError>(EndpointError::NotFound),
            Some(b) => r matches Ok(v) && presents(
                v,
                b,
                second_of(tag_pairs(state.pool.relations@, state.pool.tags@, seq![b.id])),
            ),
        },
    }
}

/// Endpoint of `GET /bookmarks/show`.
pub fn bookmarks_show(state: &State, query: BookmarksShowQuery) -> (r: Result<Bookmark, EndpointError>)
    requires
        state.pool.wf(),
    ensures
        show_result(*state, query, r),
{
    let entity_query = match unique_query(query) {
        Some(q) => q,
        None => return Err(EndpointError::MissingSelector),
    };
    let bookmark_entity = match fetch_bookmark(&state.pool, entity_query) {
        Some(b) => b,
        None => return Err(EndpointError::NotFound),
    };
    let ids: Vec<i64> = vec![bookmark_entity.id];
    assert(ids@ =~= seq![bookmark_entity.id]);
    let pairs = fetch_tags_of_bookmarks(&state.pool, ids.as_slice());
    Ok(bookmark_from_entity(bookmark_entity, second_parts(pairs)))
}

/// The tag rows of the names in `after`, and the relation rows of `bookmark`
/// in `after`, are those that a write of the bookmark with these tag names
/// leaves behind; `v` presents `b` with the texts of those tag rows.
pub open spec fn tags_written(before: State, after: State, names: Seq<String>, b: EntityBookmark, v: Bookmark) -> bool {
    let rows = select_tags(after.pool.tags@, names);
    &&& tags_synced(before.pool.tags@, after.pool.tags@, names)
    &&& after.pool.relations@ == without_bookmark(before.pool.relations@, b.id) + relations_for(b.id, ids_of(rows))
    &&& presents(v, b, texts_of(rows))
}

/// `after` is `before` with the body stored as a new bookmark, and `v` is
/// what the add answered.
pub open spec fn added(before: State, after: State, body: Bookmark, now: i64, v: Bookmark) -> bool {
    let b = row_of(before.pool.next_bookmark_id, fields_of_body(body), now, now);
    &&& after.pool.bookmarks@ == before.pool.bookmarks@.push(b)
    &&& tags_written(before, after, body.tags@, b, v)
}

/// `after` is `before` with the bookmark at position `i` overwritten by the
/// body at time `now`, and `v` is what the update answered.
pub open spec fn updated_at(before: State, after: State, body: Bookmark, now: i64, v: Bookmark, i: int) -> bool {
    let old_row = before.pool.bookmarks@[i];
    let b = row_of(old_row.id, fields_of_body(body), old_row.created, now);
    &&& 0 <= i < before.pool.bookmarks@.len()
    &&& Some(old_row.id) == body.id
    &&& after.pool.bookmarks@ == before.pool.bookmarks@.update(i, b)
    &&& tags_written(before, after, body.tags@, b, v)
}

fn body_fields(body: Bookmark) -> (r: (UnregisteredBookmark, Vec<String>))
    ensures
        r.0 == fields_of_body(body),
        r.1 == body.tags,
{
    (
        UnregisteredBookmark {
            hash: body.hash,
            url: body.url,
            title: body.title,
            description: body.description,
            thumbnail: body.thumbnail,
            sticky: body.sticky,
            private: body.private,
            extra_data: body.extra_data,
        },
        body.tags,
    )
}

/// The store holds the same rows before and after.
pub open spec fn unchanged(before: State, after: State) -> bool {
    &&& after.pool.bookmarks@ == before.pool.bookmarks@
    &&& after.pool.tags@ == before.pool.tags@
    &&& after.pool.relations@ == before.pool.relations@
}

/// A bookmark with the id is stored.
pub open spec fn has_bookmark(s: Seq<EntityBookmark>, id: i64) -> bool {
    exists|j: int| 0 <= j < s.len() && (#[trigger] s[j]).id == id
}

/// What an add of `body` at time `now` answers and leaves behind.
pub open spec fn add_outcome(before: State, after: State, body: Bookmark, now: i64, r: Result<Bookmark, EndpointError>) -> bool {
    let fits = before.pool.next_bookmark_id < i64::MAX && before.pool.next_tag_id + body.tags@.len() <= i64::MAX;
    &&& after.pool.wf()
    &&& body.id is Some ==> r == Err::<Bookmark, EndpointError>(EndpointError::UnexpectedId)
    &&& body.id is None && !fits ==> r == Err::<Bookmark, EndpointError>(EndpointError::Store(StoreError::IdsExhausted))
    &&& body.id is None && fits ==> r is Ok
    &&& r is Err ==> unchanged(before, after)
    &&& r matches Ok(v) ==> added(before, after, body, now, v)
}

/// What an update with `body` at time `now` answers and leaves behind.
pub open spec fn update_outcome(before: State, after: State, body: Bookmark, now: i64, r: Result<Bookmark, EndpointError>) -> bool {
    let fits = before.pool.next_tag_id + body.tags@.len() <= i64::MAX;
    &&& after.pool.wf()
    &&& match body.id {
        None => r == Err::<Bookmark, EndpointError>(EndpointError::MissingId),
        Some(id) => if !has_bookmark(before.pool.bookmarks@, id) {
            r == Err::<Bookmark, EndpointError>(EndpointError::NotFound)
        } else if !fits {
            r == Err::<Bookmark, EndpointError>(EndpointError::Store(StoreError::IdsExhausted))
        } else {
            r is Ok
        },
    }
    &&& r is Err ==> unchanged(before, after)
    &&& r matches Ok(v) ==> exists|i: int| updated_at(before, after, body, now, v, i)
}

/// Endpoint of `POST /bookmarks/add`: stores the bookmark and its tags
/// under a new id, with both timestamps `now`. A rejected request leaves
/// the store as it was.
pub fn bookmarks_add(state: &mut State, body: Bookmark, now: i64) -> (r: Result<Bookmark, EndpointError>)
    requires
        old(state).pool.wf(),
    ensures
        add_outcome(*old(state), *final(state), body, now, r),
{
    if body.id.is_some() {
        return Err(EndpointError::UnexpectedId);
    }
    if state.pool.next_bookmark_id == i64::MAX || body.tags.len() as u64 > (i64::MAX - state.pool.next_tag_id) as u64 {
        return Err(EndpointError::Store(StoreError::IdsExhausted));
    }
    let (fields, tags) = body_fields(body);
    let new_bookmark = match insert_bookmark(&mut state.pool, fields, now) {
        Ok(b) => b,
        Err(e) => return Err(EndpointError::Store(e)),
    };
    let new_tags = match add_sync_tags(&mut state.pool, tags.as_slice()) {
        Ok(t) => t,
        Err(e) => return Err(EndpointError::Store(e)),
    };
    let (tag_ids, texts) = split_tags(&new_tags);
    relate_bookmark_tags(&mut state.pool, new_bookmark.id, tag_ids.as_slice());
    Ok(bookmark_from_entity(new_bookmark, texts))
}

/// Endpoint of `PUT /bookmarks/update`: overwrites the bookmark with the
/// body's id, sets its `updated` to `now` and replaces its tags. A rejected
/// request leaves the store as it was.
pub fn bookmarks_update(state: &mut State, body: Bookmark, now: i64) -> (r: Result<Bookmark, EndpointError>)
    requires
        old(state).pool.wf(),
    ensures
        update_outcome(*old(state), *final(state), body, now, r),
{
    let id = match body.id {
        Some(i) => i,
        None => return Err(EndpointError::MissingId),
    };
    let pos = match position_of_bookmark(&state.pool, id) {
        Some(p) => p,
        None => return Err(EndpointError::NotFound),
    };
    if body.tags.len() as u64 > (i64::MAX - state.pool.next_tag_id) as u64 {
        return Err(EndpointError::Store(StoreError::IdsExhausted));
    }
    let ghost body0 = body;
    let ghost s0 = state.pool.bookmarks@;
    let (fields, tags) = body_fields(body);
    let updated_bookmark = match update_bookmark(&mut state.pool, id, fields, now) {
        Ok(b) => b,
        Err(_) => return Err(EndpointError::NotFound),
    };
    proof {
        let k = choose|k: int|
            {
                &&& 0 <= k < s0.len()
                &&& #[trigger] s0[k].id == id
                &&& updated_bookmark == row_of(id, fields_of_body(body0), s0[k].created, now)
                &&& state.pool.bookmarks@ == s0.update(k, updated_bookmark)
            };
        if k < pos as int {
            assert(s0[k].id < s0[pos as int].id);
        } else if k > pos as int {
            assert(s0[pos as int].id < s0[k].id);
        }
    }
    let updated_tags = match add_sync_tags(&mut state.pool, tags.as_slice()) {
        Ok(t) => t,
        Err(e) => return Err(EndpointError::Store(e)),
    };
    let (tag_ids, texts) = split_tags(&updated_tags);
    relate_bookmark_tags(&mut state.pool, updated_bookmark.id, tag_ids.as_slice());
    let v = bookmark_from_entity(updated_bookmark, texts);
    assert(updated_at(*old(state), *state, body0, now, v, pos as int));
    Ok(v)
}

/// Relies on chrono's `Local::now`, read as microseconds since the Unix
/// epoch by `DateTime::timestamp_micros`: the time of the call. Nothing is
/// known of its value.
#[verifier::external_body]
fn current_time_micros() -> (r: i64) {
    chrono::Local::now().timestamp_micros()
}

/// `POST /bookmarks/add` at the current time.
pub fn bookmarks_add_now(state: &mut State, body: Bookmark) -> (r: Result<Bookmark, EndpointError>)
    requires
        old(state).pool.wf(),
    ensures
        exists|now: i64| add_outcome(*old(state), *final(state), body, now, r),
{
    let ghost body0 = body;
    let now = current_time_micros();
    let r = bookmarks_add(state, body, now);
    assert(add_outcome(*old(state), *state, body0, now, r));
    r
}

/// `PUT /bookmarks/update` at the current time.
pub fn bookmarks_update_now(state: &mut State, body: Bookmark) -> (r: Result<Bookmark, EndpointError>)
    requires
        old(state).pool.wf(),
    ensures
        exists|now: i64| update_outcome(*old(state), *final(state), body, now, r),
{
    let ghost body0 = body;
    let now = current_time_micros();
    let r = bookmarks_update(state, body, now);
    assert(update_outcome(*old(state), *state, body0, now, r));
    r
}

/// Endpoint of `DELETE /bookmarks/remove`: deletes the bookmark and its
/// relation rows; an id that no bookmark has is no error.
pub fn bookmarks_remove(state: &mut State, query: BookmarksRemoveQuery)
    requires
        old(state).pool.wf(),
    ensures
        final(state).pool.wf(),
        final(state).pool.tags@ == old(state).pool.tags@,
        final(state).pool.relations@ == without_bookmark(old(state).pool.relations@, query.id),
        (forall|j: int| 0 <= j < old(state).pool.bookmarks@.len() ==> #[trigger] old(state).pool.bookmarks@[j].id != query.id)
            ==> final(state).pool.bookmarks@ == old(state).pool.bookmarks@,
        forall|i: int|
            0 <= i < old(state).pool.bookmarks@.len() && #[trigger] old(state).pool.bookmarks@[i].id == query.id
                ==> final(state).pool.bookmarks@ == old(state).pool.bookmarks@.remove(i),
{
    delete_bookmark(&mut state.pool, query.id);
}

/// Endpoint of `GET /bookmarks/count`: the filter asked for, `All` when none
/// was, and the number of bookmarks it admits.
pub fn bookmarks_count(state: &State, query: BookmarksCountQuery) -> (r: BookmarksCountResponse)
    requires
        state.pool.wf(),
    ensures
        r.visibility == visibility_or_all_spec(query.visibility),
        r.count == count_admitted(state.pool.bookmarks@, r.visibility),
{
    let visibility = visibility_or_all(query.visibility);
    let count = count_bookmarks_by_visibility(&state.pool, visibility);
    BookmarksCountResponse { visibility, count }
}

/// The show query that selects by id.
pub open spec fn by_id(id: i64, visibility: Option<BookmarkVisibility>) -> BookmarksShowQuery {
    BookmarksShowQuery { hash: None, url: None, id: Some(id), visibility, private_key: None }
}

/// The two lists hold the same texts, ignoring order and repeats.
pub open spec fn same_texts(a: Seq<String>, b: Seq<String>) -> bool {
    forall|x: Seq<char>| names_contain(a, x) <==> names_contain(b, x)
}

/// A lookup by the id of a stored bookmark that the filter admits finds
/// that bookmark.
proof fn lemma_fetch_by_id(s: Seq<EntityBookmark>, next: i64, i: int, visibility: BookmarkVisibility)
    requires
        bookmarks_wf(s, next),
        0 <= i < s.len(),
        admits(visibility, s[i].private),
    ensures
        fetched(s, BookmarkUniqueQuery::ById { id: s[i].id, visibility }) == Some(s[i]),
{
    let q = BookmarkUniqueQuery::ById { id: s[i].id, visibility };
    assert forall|j: int| 0 <= j < i implies !selects(#[trigger] s[j], q) by {
        assert(s[j].id < s[i].id);
    }
    assert(first_selected(s, q, i));
    let k = choose|k: int| first_selected(s, q, k);
    if k > i {
        assert(!selects(s[i], q));
    }
}

/// Every selected tag row is a row of the table.
proof fn lemma_selected_are_rows(rows: Seq<Tag>, names: Seq<String>)
    ensures
        forall|i: int|
            0 <= i < select_tags(rows, names).len() ==> exists|j: int|
                0 <= j < rows.len() && rows[j] == #[trigger] select_tags(rows, names)[i],
    decreases rows.len(),
{
    if rows.len() > 0 {
        let r0 = rows.drop_last();
        lemma_selected_are_rows(r0, names);
        let sel = select_tags(rows, names);
        let sel0 = select_tags(r0, names);
        assert forall|i: int| 0 <= i < sel.len() implies exists|j: int|
            0 <= j < rows.len() && rows[j] == #[trigger] sel[i] by {
            if i < sel0.len() {
                let j = choose|j: int| 0 <= j < r0.len() && r0[j] == sel0[i];
                assert(rows[j] == r0[j]);
            } else {
                assert(rows[rows.len() - 1] == sel[i]);
            }
        }
    }
}

/// A text is among the selected rows exactly when the table holds it and
/// it is one of the names.
proof fn lemma_selected_texts(rows: Seq<Tag>, names: Seq<String>, x: Seq<char>)
    ensures
        has_tag_text(select_tags(rows, names), x) <==> (has_tag_text(rows, x) && names_contain(names, x)),
    decreases rows.len(),
{
    if rows.len() > 0 {
        let r0 = rows.drop_last();
        let last = rows.last();
        lemma_selected_texts(r0, names, x);
        let sel0 = select_tags(r0, names);
        let sel = select_tags(rows, names);
        if has_tag_text(r0, x) {
            let j = choose|j: int| 0 <= j < r0.len() && (#[trigger] r0[j]).tag@ == x;
            assert(rows[j] == r0[j]);
        }
        if has_tag_text(rows, x) && last.tag@ != x {
            let j = choose|j: int| 0 <= j < rows.len() && (#[trigger] rows[j]).tag@ == x;
            assert(r0[j] == rows[j]);
        }
        if has_tag_text(sel0, x) {
            let j = choose|j: int| 0 <= j < sel0.len() && (#[trigger] sel0[j]).tag@ == x;
            assert(sel[j] == sel0[j]);
        }
        if names_contain(names, last.tag@) {
            assert(sel[sel.len() - 1] == last);
            if has_tag_text(sel, x) && last.tag@ != x {
                let j = choose|j: int| 0 <= j < sel.len() && (#[trigger] sel[j]).tag@ == x;
                assert(sel0[j] == sel[j]);
            }
        }
    }
}

/// The pairs of a bookmark related to stored tag rows, in row order, carry
/// the texts of those rows.
proof fn lemma_pairs_of_rows(rows: Seq<Tag>, tags: Seq<Tag>, next: i64, b: i64)
    requires
        tags_wf(tags, next),
        forall|i: int| 0 <= i < rows.len() ==> exists|j: int| 0 <= j < tags.len() && tags[j] == #[trigger] rows[i],
    ensures
        second_of(tag_pairs(relations_for(b, ids_of(rows)), tags, seq![b])) == texts_of(rows),
    decreases rows.len(),
{
    if rows.len() == 0 {
        assert(ids_of(rows) =~= Seq::<i64>::empty());
        assert(second_of(Seq::<(i64, String)>::empty()) =~= texts_of(rows));
    } else {
        let r0 = rows.drop_last();
        let last = rows.last();
        assert forall|i: int| 0 <= i < r0.len() implies exists|j: int|
            0 <= j < tags.len() && tags[j] == #[trigger] r0[i] by {
            assert(r0[i] == rows[i]);
        }
        lemma_pairs_of_rows(r0, tags, next, b);
        assert(ids_of(rows).drop_last() =~= ids_of(r0));
        let rel = BookmarkTagRelation { bookmark_id: b, tag_id: last.id };
        let rf0 = relations_for(b, ids_of(r0));
        assert(relations_for(b, ids_of(rows)) == rf0.push(rel));
        assert(rf0.push(rel).drop_last() =~= rf0);
        assert(seq![b][0] == b);
        assert(seq![b].contains(b));
        let w = choose|j: int| 0 <= j < tags.len() && tags[j] == rows[rows.len() - 1];
        assert(exists|i: int| 0 <= i < tags.len() && (#[trigger] tags[i]).id == last.id) by {
            assert(tags[w].id == last.id);
        }
        let k = choose|i: int| 0 <= i < tags.len() && (#[trigger] tags[i]).id == last.id;
        if k < w {
            assert(tags[k].id < tags[w].id);
        } else if k > w {
            assert(tags[w].id < tags[k].id);
        }
        assert(tag_text(tags, last.id) == Some(last.tag));
        let p0 = tag_pairs(rf0, tags, seq![b]);
        assert(second_of(p0.push((b, last.tag))) =~= second_of(p0).push(last.tag));
        assert(texts_of(rows) =~= texts_of(r0).push(last.tag));
    }
}

/// What show answers for a bookmark whose tags were just written: the
/// response that the write returned, whose tags are the requested names.
proof fn lemma_written_tags_shown(before: State, after: State, names: Seq<String>, b: EntityBookmark, v: Bookmark)
    requires
        after.pool.wf(),
        tags_written(before, after, names, b, v),
    ensures
        presents(v, b, second_of(tag_pairs(after.pool.relations@, after.pool.tags@, seq![b.id]))),
        same_texts(v.tags@, names),
{
    let tags = after.pool.tags@;
    let rows = select_tags(tags, names);
    let w = without_bookmark(before.pool.relations@, b.id);
    let rf = relations_for(b.id, ids_of(rows));
    lemma_tag_pairs_concat(w, rf, tags, seq![b.id]);
    lemma_without_bookmark_has_no_pairs(before.pool.relations@, tags, b.id);
    assert(Seq::<(i64, String)>::empty() + tag_pairs(rf, tags, seq![b.id]) =~= tag_pairs(rf, tags, seq![b.id]));
    lemma_selected_are_rows(tags, names);
    lemma_pairs_of_rows(rows, tags, after.pool.next_tag_id, b.id);
    assert forall|x: Seq<char>| names_contain(v.tags@, x) <==> names_contain(names, x) by {
        lemma_selected_texts(tags, names, x);
        if names_contain(v.tags@, x) {
            let k = choose|k: int| 0 <= k < v.tags@.len() && (#[trigger] v.tags@[k])@ == x;
            assert(rows[k].tag@ == x);
        }
        if names_contain(names, x) {
            let k = choose|k: int| 0 <= k < names.len() && (#[trigger] names[k])@ == x;
            assert(has_tag_text(tags, names[k]@));
            assert(has_tag_text(rows, x));
            let j = choose|j: int| 0 <= j < rows.len() && (#[trigger] rows[j]).tag@ == x;
            assert(v.tags@[j]@ == x);
        }
    }
}

/// A bookmark stored by add is what show then answers for its id: the
/// request's fields with the id and both timestamps filled in, and the
/// requested tags.
pub proof fn lemma_add_then_show(before: State, after: State, body: Bookmark, now: i64, v: Bookmark)
    requires
        before.pool.wf(),
        after.pool.wf(),
        added(before, after, body, now, v),
    ensures
        show_result(after, by_id(before.pool.next_bookmark_id, None), Ok(v)),
        v.id == Some(before.pool.next_bookmark_id),
        v.hash == body.hash && v.url == body.url && v.title == body.title && v.description == body.description,
        v.thumbnail == body.thumbnail && v.sticky == body.sticky && v.private == body.private,
        v.extra_data == body.extra_data,
        v.created == Some(now) && v.updated == Some(now),
        same_texts(v.tags@, body.tags@),
{
    let b = row_of(before.pool.next_bookmark_id, fields_of_body(body), now, now);
    let s = after.pool.bookmarks@;
    let n = before.pool.bookmarks@.len() as int;
    assert(s[n] == b);
    lemma_fetch_by_id(s, after.pool.next_bookmark_id, n, BookmarkVisibility::All);
    lemma_written_tags_shown(before, after, body.tags@, b, v);
}

/// An update is what show then answers for the id: the new fields, the
/// creation time kept, and `updated` set to the time of the update.
pub proof fn lemma_update_then_show(before: State, after: State, body: Bookmark, now: i64, v: Bookmark, i: int)
    requires
        before.pool.wf(),
        after.pool.wf(),
        updated_at(before, after, body, now, v, i),
    ensures
        show_result(after, by_id(before.pool.bookmarks@[i].id, None), Ok(v)),
        v.id == body.id,
        v.hash == body.hash && v.url == body.url && v.title == body.title && v.description == body.description,
        v.thumbnail == body.thumbnail && v.sticky == body.sticky && v.private == body.private,
        v.extra_data == body.extra_data,
        v.created == Some(before.pool.bookmarks@[i].created),
        v.updated == Some(now),
        now > before.pool.bookmarks@[i].updated ==> v.updated->Some_0 > before.pool.bookmarks@[i].updated,
        same_texts(v.tags@, body.tags@),
{
    let old_row = before.pool.bookmarks@[i];
    let b = row_of(old_row.id, fields_of_body(body), old_row.created, now);
    let s = after.pool.bookmarks@;
    assert(s[i] == b);
    lemma_fetch_by_id(s, after.pool.next_bookmark_id, i, BookmarkVisibility::All);
    lemma_written_tags_shown(before, after, body.tags@, b, v);
}

/// Once remove has run for an id, show by that id finds nothing, whatever
/// the filter.
pub proof fn lemma_remove_then_show(before: State, after: State, id: i64, visibility: Option<BookmarkVisibility>)
    requires
        before.pool.wf(),
        (forall|j: int| 0 <= j < before.pool.bookmarks@.len() ==> #[trigger] before.pool.bookmarks@[j].id != id)
            ==> after.pool.bookmarks@ == before.pool.bookmarks@,
        forall|i: int|
            0 <= i < before.pool.bookmarks@.len() && #[trigger] before.pool.bookmarks@[i].id == id
                ==> after.pool.bookmarks@ == before.pool.bookmarks@.remove(i),
    ensures
        show_result(after, by_id(id, visibility), Err(EndpointError::NotFound)),
{
    let s0 = before.pool.bookmarks@;
    let s = after.pool.bookmarks@;
    assert forall|j: int| 0 <= j < s.len() implies #[trigger] s[j].id != id by {
        if exists|i: int| 0 <= i < s0.len() && #[trigger] s0[i].id == id {
            let i = choose|i: int| 0 <= i < s0.len() && #[trigger] s0[i].id == id;
            if j < i {
                assert(s[j] == s0[j]);
                assert(s0[j].id < s0[i].id);
            } else {
                assert(s[j] == s0[j + 1]);
                assert(s0[i].id < s0[j + 1].id);
            }
        } else {
            assert(s[j] == s0[j]);
        }
    }
    let q = BookmarkUniqueQuery::ById { id, visibility: visibility_or_all_spec(visibility) };
    assert(!exists|k: int| first_selected(s, q, k));
}

} // verus!
