//! The rows the log keeps, the records it hands out, and their views as
//! plain values.
use vstd::prelude::*;

verus! {

/// The text inside an optional string.
pub open spec fn opt_text(o: Option<String>) -> Option<Seq<char>> {
    match o {
        Some(s) => Some(s@),
        None => None,
    }
}

/// A copy of an optional string.
pub fn copy_opt_text(o: &Option<String>) -> (r: Option<String>)
    ensures
        opt_text(r) == opt_text(*o),
{
    match o {
        Some(s) => Some(s.clone()),
        None => None,
    }
}

/// One row of the `entries` table: a note and its sync state.
#[derive(Debug)]
pub struct Row {
    pub id: String,
    pub body: String,
    pub created_at: i64,
    pub updated_at: i64,
    pub deleted_at: Option<i64>,
    /// The PC time of the last sync that agreed on this note.
    pub synced_at: Option<i64>,
    /// The other side's text while both sides changed it differently.
    pub other_body: Option<String>,
    /// The purge time that a decline already answered.
    pub declined_purged_at: Option<i64>,
}

/// A row as plain values.
pub struct RowView {
    pub id: Seq<char>,
    pub body: Seq<char>,
    pub created_at: i64,
    pub updated_at: i64,
    pub deleted_at: Option<i64>,
    pub synced_at: Option<i64>,
    pub other_body: Option<Seq<char>>,
    pub declined_purged_at: Option<i64>,
}

impl View for Row {
    type V = RowView;

    open spec fn view(&self) -> RowView {
        RowView {
            id: self.id@,
            body: self.body@,
            created_at: self.created_at,
            updated_at: self.updated_at,
            deleted_at: self.deleted_at,
            synced_at: self.synced_at,
            other_body: opt_text(self.other_body),
            declined_purged_at: self.declined_purged_at,
        }
    }
}

impl Row {
    /// A copy of the row.
    pub fn copy(&self) -> (r: Row)
        ensures
            r@ == self@,
    {
        Row {
            id: self.id.clone(),
            body: self.body.clone(),
            created_at: self.created_at,
            updated_at: self.updated_at,
            deleted_at: self.deleted_at,
            synced_at: self.synced_at,
            other_body: copy_opt_text(&self.other_body),
            declined_purged_at: self.declined_purged_at,
        }
    }
}

/// A note as the entry routes return it.
#[derive(Debug)]
pub struct Entry {
    pub id: String,
    pub body: String,
    pub created_at: i64,
    pub updated_at: i64,
    pub deleted_at: Option<i64>,
}

/// An entry as plain values.
pub struct EntryView {
    pub id: Seq<char>,
    pub body: Seq<char>,
    pub created_at: i64,
    pub updated_at: i64,
    pub deleted_at: Option<i64>,
}

impl View for Entry {
    type V = EntryView;

    open spec fn view(&self) -> EntryView {
        EntryView {
            id: self.id@,
            body: self.body@,
            created_at: self.created_at,
            updated_at: self.updated_at,
            deleted_at: self.deleted_at,
        }
    }
}

/// The note fields of a row.
pub open spec fn entry_of(r: RowView) -> EntryView {
    EntryView {
        id: r.id,
        body: r.body,
        created_at: r.created_at,
        updated_at: r.updated_at,
        deleted_at: r.deleted_at,
    }
}

/// The note fields of a row.
pub fn entry_from_row(r: &Row) -> (e: Entry)
    ensures
        e@ == entry_of(r@),
{
    Entry {
        id: r.id.clone(),
        body: r.body.clone(),
        created_at: r.created_at,
        updated_at: r.updated_at,
        deleted_at: r.deleted_at,
    }
}

/// A note as the lists return it: the note and the other text.
#[derive(Debug)]
pub struct ListedEntry {
    pub id: String,
    pub body: String,
    pub created_at: i64,
    pub updated_at: i64,
    pub deleted_at: Option<i64>,
    pub other_body: Option<String>,
}

/// A listed note as plain values.
pub struct ListedView {
    pub id: Seq<char>,
    pub body: Seq<char>,
    pub created_at: i64,
    pub updated_at: i64,
    pub deleted_at: Option<i64>,
    pub other_body: Option<Seq<char>>,
}

impl View for ListedEntry {
    type V = ListedView;

    open spec fn view(&self) -> ListedView {
        ListedView {
            id: self.id@,
            body: self.body@,
            created_at: self.created_at,
            updated_at: self.updated_at,
            deleted_at: self.deleted_at,
            other_body: opt_text(self.other_body),
        }
    }
}

/// The listed fields of a row.
pub open spec fn listed_of(r: RowView) -> ListedView {
    ListedView {
        id: r.id,
        body: r.body,
        created_at: r.created_at,
        updated_at: r.updated_at,
        deleted_at: r.deleted_at,
        other_body: r.other_body,
    }
}

/// The listed fields of a row.
pub fn listed_from_row(r: &Row) -> (e: ListedEntry)
    ensures
        e@ == listed_of(r@),
{
    ListedEntry {
        id: r.id.clone(),
        body: r.body.clone(),
        created_at: r.created_at,
        updated_at: r.updated_at,
        deleted_at: r.deleted_at,
        other_body: copy_opt_text(&r.other_body),
    }
}

/// A note with its sync state, as the phone sends it and as the PC answers.
#[derive(Debug)]
pub struct SyncEntry {
    pub id: String,
    pub body: String,
    pub created_at: i64,
    pub updated_at: i64,
    pub deleted_at: Option<i64>,
    pub synced_at: Option<i64>,
    pub other_body: Option<String>,
}

/// A sync entry as plain values.
pub struct SyncView {
    pub id: Seq<char>,
    pub body: Seq<char>,
    pub created_at: i64,
    pub updated_at: i64,
    pub deleted_at: Option<i64>,
    pub synced_at: Option<i64>,
    pub other_body: Option<Seq<char>>,
}

impl View for SyncEntry {
    type V = SyncView;

    open spec fn view(&self) -> SyncView {
        SyncView {
            id: self.id@,
            body: self.body@,
            created_at: self.created_at,
            updated_at: self.updated_at,
            deleted_at: self.deleted_at,
            synced_at: self.synced_at,
            other_body: opt_text(self.other_body),
        }
    }
}

impl SyncEntry {
    /// A copy of the sync entry.
    pub fn copy(&self) -> (e: SyncEntry)
        ensures
            e@ == self@,
    {
        SyncEntry {
            id: self.id.clone(),
            body: self.body.clone(),
            created_at: self.created_at,
            updated_at: self.updated_at,
            deleted_at: self.deleted_at,
            synced_at: self.synced_at,
            other_body: copy_opt_text(&self.other_body),
        }
    }
}

/// A purged id and when it was purged; no body.
#[derive(Debug)]
pub struct SyncPurge {
    pub id: String,
    pub purged_at: i64,
}

/// A purge as plain values.
pub struct PurgeView {
    pub id: Seq<char>,
    pub purged_at: i64,
}

impl View for SyncPurge {
    type V = PurgeView;

    open spec fn view(&self) -> PurgeView {
        PurgeView { id: self.id@, purged_at: self.purged_at }
    }
}

impl SyncPurge {
    /// A copy of the purge.
    pub fn copy(&self) -> (p: SyncPurge)
        ensures
            p@ == self@,
    {
        SyncPurge { id: self.id.clone(), purged_at: self.purged_at }
    }
}

/// A purge waiting for an answer on the PC: the id is still a note here.
#[derive(Debug)]
pub struct PendingPurge {
    pub id: String,
    pub purged_at: i64,
    /// The PC copy changed after the last sync that agreed on it.
    pub changed: bool,
}

/// A pending purge as plain values.
pub struct PendingView {
    pub id: Seq<char>,
    pub purged_at: i64,
    pub changed: bool,
}

impl View for PendingPurge {
    type V = PendingView;

    open spec fn view(&self) -> PendingView {
        PendingView { id: self.id@, purged_at: self.purged_at, changed: self.changed }
    }
}

/// The answer to a sync: the notes the phone should write, and the purges it
/// should ask about.
#[derive(Debug)]
pub struct SyncPayload {
    pub entries: Vec<SyncEntry>,
    pub purges: Vec<SyncPurge>,
}

/// The views of a sequence of sync entries.
pub open spec fn sync_views(s: Seq<SyncEntry>) -> Seq<SyncView> {
    s.map_values(|e: SyncEntry| e@)
}

/// The views of a sequence of purges.
pub open spec fn purge_views(s: Seq<SyncPurge>) -> Seq<PurgeView> {
    s.map_values(|p: SyncPurge| p@)
}

/// The views of a sequence of rows.
pub open spec fn row_views(s: Seq<Row>) -> Seq<RowView> {
    s.map_values(|r: Row| r@)
}

/// The ids of a sequence of rows.
pub open spec fn row_ids(s: Seq<RowView>) -> Seq<Seq<char>> {
    s.map_values(|r: RowView| r.id)
}

/// The ids of a sequence of purges.
pub open spec fn purge_ids(s: Seq<PurgeView>) -> Seq<Seq<char>> {
    s.map_values(|p: PurgeView| p.id)
}

/// The ids of a sequence of sync entries.
pub open spec fn sync_ids(s: Seq<SyncView>) -> Seq<Seq<char>> {
    s.map_values(|e: SyncView| e.id)
}

/// Where `id` stands in `ids`, if anywhere.
pub open spec fn find_id(ids: Seq<Seq<char>>, id: Seq<char>) -> Option<int> {
    if exists|i: int| 0 <= i < ids.len() && ids[i] == id {
        Some(choose|i: int| 0 <= i < ids.len() && ids[i] == id)
    } else {
        None
    }
}

/// In a sequence without repeats, the place found for an id is the one
/// that holds it.
pub proof fn lemma_find_id(ids: Seq<Seq<char>>, id: Seq<char>, i: int)
    requires
        ids.no_duplicates(),
        0 <= i < ids.len(),
        ids[i] == id,
    ensures
        find_id(ids, id) == Some(i),
{
}

} // verus!
