//! The log's two tables, `entries` and `purges`, and what each entry route
//! does to them.
use vstd::prelude::*;

use crate::error::ApiError;
use crate::model::{
    entry_from_row, entry_of, find_id, lemma_find_id, listed_from_row, listed_of, purge_ids,
    purge_views, row_ids, row_views, Entry, EntryView, ListedEntry, ListedView, PurgeView, Row,
    RowView, SyncPurge,
};
use crate::order::{first_by, key_view, key_views, lemma_ranked_first_by, rank, SortKey};
use crate::text::{body_text, chars_of, checked_id, id_text, trimmed_body};

verus! {

/// How many notes a list gives at most.
pub const LIST_CAP: usize = 50;

/// The two tables as plain values.
pub struct StoreView {
    /// The `entries` rows, in the order they are kept.
    pub rows: Seq<RowView>,
    /// The `purges` rows.
    pub purges: Seq<PurgeView>,
}

impl StoreView {
    /// Each id is at most one note and at most one purge.
    pub open spec fn wf(self) -> bool {
        &&& row_ids(self.rows).no_duplicates()
        &&& purge_ids(self.purges).no_duplicates()
    }

    /// Where the note with this id is kept.
    pub open spec fn row_index(self, id: Seq<char>) -> Option<int> {
        find_id(row_ids(self.rows), id)
    }

    /// Where the purge of this id is kept.
    pub open spec fn purge_index(self, id: Seq<char>) -> Option<int> {
        find_id(purge_ids(self.purges), id)
    }

    /// The same purges with other notes.
    pub open spec fn with_rows(self, rows: Seq<RowView>) -> StoreView {
        StoreView { rows, purges: self.purges }
    }
}

/// The view of an entry route's answer.
pub open spec fn entry_result(r: Result<Entry, ApiError>) -> Result<EntryView, ApiError> {
    match r {
        Ok(e) => Ok(e@),
        Err(e) => Err(e),
    }
}

/// A note as written on the PC: written and changed now, not deleted, never
/// synced.
pub open spec fn written_row(id: Seq<char>, body: Seq<char>, now: i64) -> RowView {
    RowView {
        id,
        body,
        created_at: now,
        updated_at: now,
        deleted_at: None,
        synced_at: None,
        other_body: None,
        declined_purged_at: None,
    }
}

/// `POST /api/entries`: the id is checked, then the body; an id that is
/// already a note or a purge is refused; otherwise the note is added.
pub open spec fn create_spec(s: StoreView, id: Seq<char>, body: Seq<char>, now: i64) -> (
    StoreView,
    Result<EntryView, ApiError>,
) {
    match id_text(id) {
        Err(e) => (s, Err(e)),
        Ok(i) => match body_text(body) {
            Err(e) => (s, Err(e)),
            Ok(b) => if s.row_index(i) is Some || s.purge_index(i) is Some {
                (s, Err(ApiError::DuplicateId))
            } else {
                let r = written_row(i, b, now);
                (s.with_rows(s.rows.push(r)), Ok(entry_of(r)))
            },
        },
    }
}

/// A note the edit route can reach: on the log, or carrying the other text.
pub open spec fn editable(r: RowView) -> bool {
    r.other_body is Some || r.deleted_at is None
}

/// A note after an edit: the new body, changed now, on the log, no other
/// text.
pub open spec fn edited_row(r: RowView, body: Seq<char>, now: i64) -> RowView {
    RowView { body, updated_at: now, deleted_at: None, other_body: None, ..r }
}

/// `PUT /api/entries/{id}`: the body is checked; then the note is edited if
/// the route can reach it.
pub open spec fn update_spec(s: StoreView, id: Seq<char>, body: Seq<char>, now: i64) -> (
    StoreView,
    Result<EntryView, ApiError>,
) {
    match body_text(body) {
        Err(e) => (s, Err(e)),
        Ok(b) => match s.row_index(id) {
            Some(k) => if editable(s.rows[k]) {
                let r = edited_row(s.rows[k], b, now);
                (s.with_rows(s.rows.update(k, r)), Ok(entry_of(r)))
            } else {
                (s, Err(ApiError::NotFound))
            },
            None => (s, Err(ApiError::NotFound)),
        },
    }
}

/// A note after a soft delete at `now`.
pub open spec fn deleted_row(r: RowView, now: i64) -> RowView {
    RowView { deleted_at: Some(now), updated_at: now, ..r }
}

/// `DELETE /api/entries/{id}`: a note on the log is soft-deleted.
pub open spec fn delete_spec(s: StoreView, id: Seq<char>, now: i64) -> (
    StoreView,
    Result<(), ApiError>,
) {
    match s.row_index(id) {
        Some(k) => if s.rows[k].deleted_at is None {
            (s.with_rows(s.rows.update(k, deleted_row(s.rows[k], now))), Ok(()))
        } else {
            (s, Err(ApiError::NotFound))
        },
        None => (s, Err(ApiError::NotFound)),
    }
}

/// A note after a restore at `now`.
pub open spec fn restored_row(r: RowView, now: i64) -> RowView {
    RowView { deleted_at: None, updated_at: now, ..r }
}

/// `POST /api/entries/{id}/restore`: a soft-deleted note is back on the log.
pub open spec fn restore_spec(s: StoreView, id: Seq<char>, now: i64) -> (
    StoreView,
    Result<EntryView, ApiError>,
) {
    match s.row_index(id) {
        Some(k) => if s.rows[k].deleted_at is Some {
            let r = restored_row(s.rows[k], now);
            (s.with_rows(s.rows.update(k, r)), Ok(entry_of(r)))
        } else {
            (s, Err(ApiError::NotFound))
        },
        None => (s, Err(ApiError::NotFound)),
    }
}

/// `DELETE /api/entries/{id}/purge`: a soft-deleted note is removed; if it
/// ever synced, its id and the time are kept as a purge (a purge already
/// kept for it stays).
pub open spec fn purge_spec(s: StoreView, id: Seq<char>, now: i64) -> (
    StoreView,
    Result<(), ApiError>,
) {
    match s.row_index(id) {
        Some(k) => if s.rows[k].deleted_at is Some {
            let purges = if s.rows[k].synced_at is Some && s.purge_index(id) is None {
                s.purges.push(PurgeView { id, purged_at: now })
            } else {
                s.purges
            };
            (StoreView { rows: s.rows.remove(k), purges }, Ok(()))
        } else {
            (s, Err(ApiError::NotFound))
        },
        None => (s, Err(ApiError::NotFound)),
    }
}

/// A note belongs to the deleted list (`deleted`) or to the log.
pub open spec fn in_list(deleted: bool, r: RowView) -> bool {
    if deleted {
        r.deleted_at is Some
    } else {
        r.deleted_at is None
    }
}

/// The order of a list, newest first: the deleted list by `deleted_at`, the
/// log by `created_at`, then by id.
pub open spec fn list_key(deleted: bool, r: RowView) -> SortKey {
    if deleted {
        match r.deleted_at {
            Some(t) => (t, r.id),
            None => (0, r.id),
        }
    } else {
        (r.created_at, r.id)
    }
}

/// The notes a list may show, in the order they are kept.
pub open spec fn list_candidates(rows: Seq<RowView>, deleted: bool) -> Seq<RowView> {
    rows.filter(|r: RowView| in_list(deleted, r))
}

/// `chosen` is what a list gives: its first `LIST_CAP` notes, newest first.
pub open spec fn is_listing(rows: Seq<RowView>, deleted: bool, chosen: Seq<RowView>) -> bool {
    first_by(
        list_candidates(rows, deleted),
        |r: RowView| list_key(deleted, r),
        true,
        LIST_CAP as int,
        chosen,
    )
}

/// The views of listed notes.
pub open spec fn listed_views(s: Seq<ListedEntry>) -> Seq<ListedView> {
    s.map_values(|e: ListedEntry| e@)
}

/// The log's tables.
#[derive(Debug)]
pub struct Store {
    rows: Vec<Row>,
    purges: Vec<SyncPurge>,
}

impl View for Store {
    type V = StoreView;

    closed spec fn view(&self) -> StoreView {
        StoreView { rows: row_views(self.rows@), purges: purge_views(self.purges@) }
    }
}

/// Pushing a row with a new id keeps ids apart.
proof fn lemma_push_row_wf(s: StoreView, r: RowView)
    requires
        s.wf(),
        s.row_index(r.id) is None,
    ensures
        s.with_rows(s.rows.push(r)).wf(),
{
    assert(row_ids(s.rows.push(r)) == row_ids(s.rows).push(r.id));
    assert(!row_ids(s.rows).contains(r.id));
}

/// Replacing a row by one with the same id keeps ids apart.
proof fn lemma_update_row_wf(s: StoreView, k: int, r: RowView)
    requires
        s.wf(),
        0 <= k < s.rows.len(),
        s.rows[k].id == r.id,
    ensures
        s.with_rows(s.rows.update(k, r)).wf(),
{
    assert(row_ids(s.rows.update(k, r)) == row_ids(s.rows));
}

impl Store {
    /// Both tables empty.
    pub fn new() -> (s: Store)
        ensures
            s@.rows.len() == 0,
            s@.purges.len() == 0,
            s@.wf(),
    {
        let s = Store { rows: Vec::new(), purges: Vec::new() };
        assert(s@.rows =~= Seq::<RowView>::empty());
        assert(s@.purges =~= Seq::<PurgeView>::empty());
        s
    }

    /// The tables as read back from storage; `None` where an id is two notes
    /// or two purges.
    pub fn from_rows(rows: Vec<Row>, purges: Vec<SyncPurge>) -> (r: Option<Store>)
        ensures
            match r {
                Some(s) => s@.wf() && s@.rows == row_views(rows@) && s@.purges == purge_views(
                    purges@,
                ),
                None => !(StoreView {
                    rows: row_views(rows@),
                    purges: purge_views(purges@),
                }).wf(),
            },
    {
        let mut i: usize = 0;
        while i < rows.len()
            invariant
                i <= rows.len(),
                forall|a: int, b: int|
                    0 <= a < b < rows.len() && a < i ==> (#[trigger] rows@[a])@.id != (
                    #[trigger] rows@[b])@.id,
            decreases rows.len() - i,
        {
            let mut j: usize = i + 1;
            while j < rows.len()
                invariant
                    i < rows.len(),
                    i + 1 <= j <= rows.len(),
                    forall|a: int, b: int|
                        0 <= a < b < rows.len() && a < i ==> (#[trigger] rows@[a])@.id != (
                        #[trigger] rows@[b])@.id,
                    forall|b: int| i < b < j ==> rows@[i as int]@.id != (#[trigger] rows@[b])@.id,
                decreases rows.len() - j,
            {
                if rows[i].id == rows[j].id {
                    assert(row_ids(row_views(rows@))[i as int] == row_ids(row_views(rows@))[j as int]);
                    return None;
                }
                j += 1;
            }
            i += 1;
        }
        let mut i: usize = 0;
        while i < purges.len()
            invariant
                i <= purges.len(),
                forall|a: int, b: int|
                    0 <= a < b < purges.len() && a < i ==> (#[trigger] purges@[a])@.id != (
                    #[trigger] purges@[b])@.id,
            decreases purges.len() - i,
        {
            let mut j: usize = i + 1;
            while j < purges.len()
                invariant
                    i < purges.len(),
                    i + 1 <= j <= purges.len(),
                    forall|a: int, b: int|
                        0 <= a < b < purges.len() && a < i ==> (#[trigger] purges@[a])@.id != (
                        #[trigger] purges@[b])@.id,
                    forall|b: int|
                        i < b < j ==> purges@[i as int]@.id != (#[trigger] purges@[b])@.id,
                decreases purges.len() - j,
            {
                if purges[i].id == purges[j].id {
                    assert(purge_ids(purge_views(purges@))[i as int] == purge_ids(
                        purge_views(purges@),
                    )[j as int]);
                    return None;
                }
                j += 1;
            }
            i += 1;
        }
        let s = Store { rows, purges };
        proof {
            assert forall|a: int, b: int|
                0 <= a < row_ids(s@.rows).len() && 0 <= b < row_ids(s@.rows).len() && a
                    != b implies row_ids(s@.rows)[a] != row_ids(s@.rows)[b] by {
                if a < b {
                    assert(s.rows@[a]@.id != s.rows@[b]@.id);
                } else {
                    assert(s.rows@[b]@.id != s.rows@[a]@.id);
                }
            }
            assert forall|a: int, b: int|
                0 <= a < purge_ids(s@.purges).len() && 0 <= b < purge_ids(s@.purges).len() && a
                    != b implies purge_ids(s@.purges)[a] != purge_ids(s@.purges)[b] by {
                if a < b {
                    assert(s.purges@[a]@.id != s.purges@[b]@.id);
                } else {
                    assert(s.purges@[b]@.id != s.purges@[a]@.id);
                }
            }
        }
        Some(s)
    }

    /// The `entries` rows, to be written back to storage.
    pub fn rows(&self) -> (r: &Vec<Row>)
        ensures
            row_views(r@) == self@.rows,
    {
        &self.rows
    }

    /// The `purges` rows, to be written back to storage.
    pub fn purges(&self) -> (p: &Vec<SyncPurge>)
        ensures
            purge_views(p@) == self@.purges,
    {
        &self.purges
    }

    /// Where the note with this id is kept.
    pub fn find_row(&self, id: &String) -> (r: Option<usize>)
        requires
            self@.wf(),
        ensures
            match r {
                Some(k) => self@.row_index(id@) == Some(k as int) && k < self@.rows.len(),
                None => self@.row_index(id@) is None,
            },
    {
        let mut i: usize = 0;
        while i < self.rows.len()
            invariant
                self@.wf(),
                i <= self.rows.len(),
                forall|k: int| 0 <= k < i ==> (#[trigger] self.rows@[k])@.id != id@,
            decreases self.rows.len() - i,
        {
            if self.rows[i].id == *id {
                proof {
                    lemma_find_id(row_ids(self@.rows), id@, i as int);
                }
                return Some(i);
            }
            i += 1;
        }
        proof {
            assert forall|k: int| 0 <= k < row_ids(self@.rows).len() implies row_ids(self@.rows)[k]
                != id@ by {
                assert(self.rows@[k]@.id != id@);
            }
        }
        None
    }

    /// Where the purge of this id is kept.
    pub fn find_purge(&self, id: &String) -> (r: Option<usize>)
        requires
            self@.wf(),
        ensures
            match r {
                Some(k) => self@.purge_index(id@) == Some(k as int) && k < self@.purges.len(),
                None => self@.purge_index(id@) is None,
            },
    {
        let mut i: usize = 0;
        while i < self.purges.len()
            invariant
                self@.wf(),
                i <= self.purges.len(),
                forall|k: int| 0 <= k < i ==> (#[trigger] self.purges@[k])@.id != id@,
            decreases self.purges.len() - i,
        {
            if self.purges[i].id == *id {
                proof {
                    lemma_find_id(purge_ids(self@.purges), id@, i as int);
                }
                return Some(i);
            }
            i += 1;
        }
        proof {
            assert forall|k: int|
                0 <= k < purge_ids(self@.purges).len() implies purge_ids(self@.purges)[k]
                != id@ by {
                assert(self.purges@[k]@.id != id@);
            }
        }
        None
    }

    /// How many notes are kept.
    pub fn row_count(&self) -> (n: usize)
        ensures
            n == self@.rows.len(),
    {
        self.rows.len()
    }

    /// How many purges are kept.
    pub fn purge_count(&self) -> (n: usize)
        ensures
            n == self@.purges.len(),
    {
        self.purges.len()
    }

    /// The note kept at `k`.
    pub fn row(&self, k: usize) -> (r: &Row)
        requires
            k < self@.rows.len(),
        ensures
            r@ == self@.rows[k as int],
    {
        &self.rows[k]
    }

    /// The purge kept at `j`.
    pub fn purge(&self, j: usize) -> (p: &SyncPurge)
        requires
            j < self@.purges.len(),
        ensures
            p@ == self@.purges[j as int],
    {
        &self.purges[j]
    }

    /// Adds a note with an id not yet kept.
    pub(crate) fn push_row(&mut self, r: Row)
        requires
            old(self)@.wf(),
            old(self)@.row_index(r@.id) is None,
        ensures
            final(self)@ == old(self)@.with_rows(old(self)@.rows.push(r@)),
            final(self)@.wf(),
    {
        proof {
            lemma_push_row_wf(self@, r@);
        }
        self.rows.push(r);
        assert(row_views(self.rows@) == old(self)@.rows.push(r@));
    }

    /// Adds a purge of an id not yet purged.
    pub(crate) fn push_purge(&mut self, p: SyncPurge)
        requires
            old(self)@.wf(),
            old(self)@.purge_index(p@.id) is None,
        ensures
            final(self)@ == (StoreView {
                rows: old(self)@.rows,
                purges: old(self)@.purges.push(p@),
            }),
            final(self)@.wf(),
    {
        proof {
            assert(purge_ids(self@.purges.push(p@)) == purge_ids(self@.purges).push(p@.id));
            assert(!purge_ids(self@.purges).contains(p@.id));
        }
        self.purges.push(p);
        assert(purge_views(self.purges@) == old(self)@.purges.push(p@));
    }

    /// Removes the note kept at `k`.
    pub(crate) fn remove_row(&mut self, k: usize)
        requires
            old(self)@.wf(),
            k < old(self)@.rows.len(),
        ensures
            final(self)@ == old(self)@.with_rows(old(self)@.rows.remove(k as int)),
            final(self)@.wf(),
    {
        let ghost s = self@;
        self.rows.remove(k);
        proof {
            assert(row_views(self.rows@) == s.rows.remove(k as int));
            assert forall|a: int, b: int|
                0 <= a < row_ids(self@.rows).len() && 0 <= b < row_ids(self@.rows).len() && a
                    != b implies row_ids(self@.rows)[a] != row_ids(self@.rows)[b] by {
                let oa = if a < k {
                    a
                } else {
                    a + 1
                };
                let ob = if b < k {
                    b
                } else {
                    b + 1
                };
                assert(row_ids(self@.rows)[a] == row_ids(s.rows)[oa]);
                assert(row_ids(self@.rows)[b] == row_ids(s.rows)[ob]);
            }
        }
    }

    /// Removes the purge kept at `j`.
    pub(crate) fn remove_purge(&mut self, j: usize)
        requires
            old(self)@.wf(),
            j < old(self)@.purges.len(),
        ensures
            final(self)@ == (StoreView {
                rows: old(self)@.rows,
                purges: old(self)@.purges.remove(j as int),
            }),
            final(self)@.wf(),
    {
        let ghost s = self@;
        self.purges.remove(j);
        proof {
            assert(purge_views(self.purges@) == s.purges.remove(j as int));
            assert forall|a: int, b: int|
                0 <= a < purge_ids(self@.purges).len() && 0 <= b < purge_ids(self@.purges).len()
                    && a != b implies purge_ids(self@.purges)[a] != purge_ids(self@.purges)[b] by {
                let oa = if a < j {
                    a
                } else {
                    a + 1
                };
                let ob = if b < j {
                    b
                } else {
                    b + 1
                };
                assert(purge_ids(self@.purges)[a] == purge_ids(s.purges)[oa]);
                assert(purge_ids(self@.purges)[b] == purge_ids(s.purges)[ob]);
            }
        }
    }

    /// Puts a row in place of the row at `k`, which has the same id.
    pub(crate) fn replace_row(&mut self, k: usize, r: Row)
        requires
            old(self)@.wf(),
            k < old(self)@.rows.len(),
            old(self)@.rows[k as int].id == r@.id,
        ensures
            final(self)@ == old(self)@.with_rows(old(self)@.rows.update(k as int, r@)),
            final(self)@.wf(),
    {
        proof {
            lemma_update_row_wf(self@, k as int, r@);
        }
        self.rows.set(k, r);
        assert(row_views(self.rows@) == old(self)@.rows.update(k as int, r@));
    }

    /// `POST /api/entries`: writes a new note at `now`.
    pub fn create_entry(&mut self, id: &str, body: &str, now: i64) -> (r: Result<Entry, ApiError>)
        requires
            old(self)@.wf(),
        ensures
            final(self)@.wf(),
            (final(self)@, entry_result(r)) == create_spec(old(self)@, id@, body@, now),
    {
        let id = checked_id(id)?;
        let body = trimmed_body(body)?;
        if self.find_row(&id).is_some() || self.find_purge(&id).is_some() {
            return Err(ApiError::DuplicateId);
        }
        let row = Row {
            id,
            body,
            created_at: now,
            updated_at: now,
            deleted_at: None,
            synced_at: None,
            other_body: None,
            declined_purged_at: None,
        };
        let entry = entry_from_row(&row);
        proof {
            lemma_push_row_wf(self@, row@);
        }
        self.rows.push(row);
        assert(row_views(self.rows@) == old(self)@.rows.push(row@));
        Ok(entry)
    }

    /// `PUT /api/entries/{id}`: replaces the body of a note at `now`.
    pub fn update_entry(&mut self, id: &str, body: &str, now: i64) -> (r: Result<Entry, ApiError>)
        requires
            old(self)@.wf(),
        ensures
            final(self)@.wf(),
            (final(self)@, entry_result(r)) == update_spec(old(self)@, id@, body@, now),
    {
        let body = trimmed_body(body)?;
        let key = id.to_owned();
        let k = match self.find_row(&key) {
            Some(k) => k,
            None => {
                return Err(ApiError::NotFound);
            },
        };
        if self.rows[k].other_body.is_none() && self.rows[k].deleted_at.is_some() {
            return Err(ApiError::NotFound);
        }
        let old_row = self.rows[k].copy();
        let row = Row {
            body,
            updated_at: now,
            deleted_at: None,
            other_body: None,
            ..old_row
        };
        let entry = entry_from_row(&row);
        self.replace_row(k, row);
        Ok(entry)
    }

    /// `DELETE /api/entries/{id}`: soft-deletes a note on the log at `now`.
    pub fn delete_entry(&mut self, id: &str, now: i64) -> (r: Result<(), ApiError>)
        requires
            old(self)@.wf(),
        ensures
            final(self)@.wf(),
            (final(self)@, r) == delete_spec(old(self)@, id@, now),
    {
        let key = id.to_owned();
        let k = match self.find_row(&key) {
            Some(k) => k,
            None => {
                return Err(ApiError::NotFound);
            },
        };
        if self.rows[k].deleted_at.is_some() {
            return Err(ApiError::NotFound);
        }
        let old_row = self.rows[k].copy();
        let row = Row { deleted_at: Some(now), updated_at: now, ..old_row };
        self.replace_row(k, row);
        Ok(())
    }

    /// `POST /api/entries/{id}/restore`: puts a soft-deleted note back on the
    /// log at `now`.
    pub fn restore_entry(&mut self, id: &str, now: i64) -> (r: Result<Entry, ApiError>)
        requires
            old(self)@.wf(),
        ensures
            final(self)@.wf(),
            (final(self)@, entry_result(r)) == restore_spec(old(self)@, id@, now),
    {
        let key = id.to_owned();
        let k = match self.find_row(&key) {
            Some(k) => k,
            None => {
                return Err(ApiError::NotFound);
            },
        };
        if self.rows[k].deleted_at.is_none() {
            return Err(ApiError::NotFound);
        }
        let old_row = self.rows[k].copy();
        let row = Row { deleted_at: None, updated_at: now, ..old_row };
        let entry = entry_from_row(&row);
        self.replace_row(k, row);
        Ok(entry)
    }

    /// `DELETE /api/entries/{id}/purge`: removes a soft-deleted note, keeping
    /// its id as a purge at `now` if it ever synced.
    pub fn purge_entry(&mut self, id: &str, now: i64) -> (r: Result<(), ApiError>)
        requires
            old(self)@.wf(),
        ensures
            final(self)@.wf(),
            (final(self)@, r) == purge_spec(old(self)@, id@, now),
    {
        let key = id.to_owned();
        let k = match self.find_row(&key) {
            Some(k) => k,
            None => {
                return Err(ApiError::NotFound);
            },
        };
        if self.rows[k].deleted_at.is_none() {
            return Err(ApiError::NotFound);
        }
        let ghost s = self@;
        if self.rows[k].synced_at.is_some() && self.find_purge(&key).is_none() {
            proof {
                assert(purge_ids(s.purges.push(PurgeView { id: key@, purged_at: now })) == purge_ids(
                    s.purges,
                ).push(key@));
                assert(!purge_ids(s.purges).contains(key@));
            }
            self.purges.push(SyncPurge { id: key, purged_at: now });
            assert(purge_views(self.purges@) == s.purges.push(PurgeView { id: id@, purged_at: now }));
        }
        self.rows.remove(k);
        proof {
            assert(row_views(self.rows@) == s.rows.remove(k as int));
            assert(row_ids(s.rows.remove(k as int)) == row_ids(s.rows).remove(k as int));
            assert forall|a: int, b: int|
                0 <= a < row_ids(self@.rows).len() && 0 <= b < row_ids(self@.rows).len() && a
                    != b implies row_ids(self@.rows)[a] != row_ids(self@.rows)[b] by {
                let oa = if a < k {
                    a
                } else {
                    a + 1
                };
                let ob = if b < k {
                    b
                } else {
                    b + 1
                };
                assert(row_ids(self@.rows)[a] == row_ids(s.rows)[oa]);
                assert(row_ids(self@.rows)[b] == row_ids(s.rows)[ob]);
            }
        }
        Ok(())
    }

    /// The first `LIST_CAP` notes of a list, newest first.
    fn listing(&self, deleted: bool) -> (out: Vec<ListedEntry>)
        requires
            self@.wf(),
        ensures
            exists|chosen: Seq<RowView>|
                is_listing(self@.rows, deleted, chosen) && listed_views(out@) == chosen.map_values(
                    |r: RowView| listed_of(r),
                ),
    {
        let ghost rows = self@.rows;
        let ghost sel = |r: RowView| in_list(deleted, r);
        let ghost key = |r: RowView| list_key(deleted, r);
        let mut places: Vec<usize> = Vec::new();
        let mut keys: Vec<(i64, Vec<char>)> = Vec::new();
        let n = self.rows.len();
        proof {
            reveal(Seq::filter);
            assert(rows.take(0).filter(sel) =~= Seq::<RowView>::empty());
        }
        let mut i: usize = 0;
        while i < n
            invariant
                n == self.rows.len(),
                rows == self@.rows,
                sel == (|r: RowView| in_list(deleted, r)),
                key == (|r: RowView| list_key(deleted, r)),
                self@.wf(),
                i <= n,
                places@.len() == keys@.len(),
                forall|a: int| 0 <= a < places@.len() ==> #[trigger] places@[a] < i,
                forall|a: int, b: int|
                    0 <= a < b < places@.len() ==> #[trigger] places@[a] < #[trigger] places@[b],
                places@.map_values(|p: usize| rows[p as int]) == rows.take(i as int).filter(sel),
                forall|a: int|
                    0 <= a < keys@.len() ==> key_view(#[trigger] keys@[a]) == key(
                        rows[places@[a] as int],
                    ),
            decreases n - i,
        {
            let ghost before = places@;
            proof {
                assert(rows.take(i + 1) == rows.take(i as int).push(rows[i as int]));
                rows.take(i as int).lemma_filter_push(rows[i as int], sel);
            }
            let row = &self.rows[i];
            let pick = if deleted {
                row.deleted_at.is_some()
            } else {
                row.deleted_at.is_none()
            };
            assert(sel(rows[i as int]) == pick);
            if pick {
                let t = if deleted {
                    match row.deleted_at {
                        Some(t) => t,
                        None => 0,
                    }
                } else {
                    row.created_at
                };
                let id_chars = chars_of(row.id.as_str());
                assert(key(rows[i as int]) == (t, id_chars@));
                places.push(i);
                keys.push((t, id_chars));
                assert(places@.map_values(|p: usize| rows[p as int]) == before.map_values(
                    |p: usize| rows[p as int],
                ).push(rows[i as int]));
                assert(key_view(keys@[keys@.len() - 1]) == key(rows[i as int]));
            }
            i += 1;
        }
        let ghost cands = rows.filter(sel);
        proof {
            assert(rows.take(n as int) == rows);
            assert(key_views(keys@) == cands.map_values(|c: RowView| key(c))) by {
                assert forall|a: int| 0 <= a < keys@.len() implies key_views(keys@)[a] == cands.map_values(
                    |c: RowView| key(c),
                )[a] by {
                    assert(cands[a] == rows[places@[a] as int]);
                }
            }
            assert forall|a: int, b: int|
                0 <= a < b < keys@.len() implies key_view(#[trigger] keys@[a]) != key_view(
                    #[trigger] keys@[b],
                ) by {
                let pa = places@[a] as int;
                let pb = places@[b] as int;
                assert(pa < pb);
                assert(row_ids(rows)[pa] != row_ids(rows)[pb]);
            }
        }
        let idx = rank(&keys, true, LIST_CAP);
        proof {
            lemma_ranked_first_by(cands, key, true, LIST_CAP as int, idx@);
        }
        let ghost chosen = idx@.map_values(|j: usize| cands[j as int]);
        let mut out: Vec<ListedEntry> = Vec::new();
        let mut j: usize = 0;
        while j < idx.len()
            invariant
                j <= idx@.len(),
                chosen.len() == idx@.len(),
                rows == self@.rows,
                cands == rows.filter(sel),
                places@.map_values(|p: usize| rows[p as int]) == cands,
                forall|a: int| 0 <= a < idx@.len() ==> #[trigger] idx@[a] < places@.len(),
                forall|a: int| 0 <= a < places@.len() ==> #[trigger] places@[a] < self.rows@.len(),
                forall|a: int| 0 <= a < idx@.len() ==> chosen[a] == cands[#[trigger] idx@[a] as int],
                listed_views(out@) == chosen.take(j as int).map_values(|r: RowView| listed_of(r)),
            decreases idx@.len() - j,
        {
            let p = places[idx[j]];
            let item = listed_from_row(&self.rows[p]);
            proof {
                assert(cands[idx@[j as int] as int] == rows[p as int]);
                assert(rows[p as int] == self.rows@[p as int]@);
                assert(chosen.take(j + 1) == chosen.take(j as int).push(chosen[j as int]));
            }
            let ghost before = out@;
            out.push(item);
            proof {
                assert(out@ == before.push(item));
                assert(listed_views(out@) == listed_views(before).push(item@));
                assert(listed_views(out@) == chosen.take(j + 1).map_values(
                    |r: RowView| listed_of(r),
                ));
            }
            j += 1;
        }
        proof {
            assert(chosen.take(idx@.len() as int) == chosen);
            assert(is_listing(self@.rows, deleted, chosen));
        }
        out
    }

    /// `GET /api/entries`: the first `LIST_CAP` notes on the log, by
    /// `created_at`, newest first, then by id.
    pub fn list_entries(&self) -> (out: Vec<ListedEntry>)
        requires
            self@.wf(),
        ensures
            exists|chosen: Seq<RowView>|
                is_listing(self@.rows, false, chosen) && listed_views(out@) == chosen.map_values(
                    |r: RowView| listed_of(r),
                ),
    {
        self.listing(false)
    }

    /// `GET /api/entries/deleted`: the first `LIST_CAP` soft-deleted notes, by
    /// `deleted_at`, newest first, then by id.
    pub fn list_deleted(&self) -> (out: Vec<ListedEntry>)
        requires
            self@.wf(),
        ensures
            exists|chosen: Seq<RowView>|
                is_listing(self@.rows, true, chosen) && listed_views(out@) == chosen.map_values(
                    |r: RowView| listed_of(r),
                ),
    {
        self.listing(true)
    }
}

} // verus!
