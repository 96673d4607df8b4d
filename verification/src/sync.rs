//! The sync between the phone copy and the PC copy, and the answers to a
//! purge that one side asks the other about.
use vstd::prelude::*;

use crate::error::ApiError;
use crate::json::{note_of, parse_note, parse_sync, sync_request_of, JsonValue};
use crate::model::{
    copy_opt_text, entry_from_row, entry_of, purge_ids, purge_views, sync_ids, sync_views,
    Entry, EntryView, PendingPurge, PendingView, PurgeView, Row, RowView, SyncEntry, SyncPayload,
    SyncPurge, SyncView,
};
use crate::order::{first_by, key_view, key_views, lemma_ranked_first_by, rank, SortKey};
use crate::text::chars_of;
use crate::store::{entry_result, Store, StoreView};
use crate::time::{is_newer, newer};

verus! {

/// The phone copy and the PC row hold the same text, and both or neither
/// are soft-deleted.
pub open spec fn same_content(n: SyncView, r: RowView) -> bool {
    n.body == r.body && (n.deleted_at is Some) == (r.deleted_at is Some)
}

/// Both copies are still the version that the last sync agreed on.
pub open spec fn agreed_times(n: SyncView, r: RowView) -> bool {
    match r.synced_at {
        Some(t) => r.updated_at == t && n.synced_at == Some(t) && n.updated_at == t,
        None => false,
    }
}

/// A row after a sync agreed on it at `now`: changed and synced now, no
/// other text.
pub open spec fn stamped(r: RowView, now: i64) -> RowView {
    RowView { updated_at: now, synced_at: Some(now), other_body: None, ..r }
}

/// A row that takes the phone's text and soft delete, agreed at `now`.
pub open spec fn phone_kept(r: RowView, n: SyncView, now: i64) -> RowView {
    RowView {
        body: n.body,
        deleted_at: n.deleted_at,
        updated_at: now,
        synced_at: Some(now),
        other_body: None,
        ..r
    }
}

/// A note only the phone had, as stored at `now`.
pub open spec fn phone_row(n: SyncView, now: i64) -> RowView {
    RowView {
        id: n.id,
        body: n.body,
        created_at: n.created_at,
        updated_at: now,
        deleted_at: n.deleted_at,
        synced_at: Some(now),
        other_body: None,
        declined_purged_at: None,
    }
}

/// What the phone is told to write for its note, given the stored row: the
/// row's state under the phone's id and `created_at`.
pub open spec fn for_phone(n: SyncView, r: RowView) -> SyncView {
    SyncView {
        id: n.id,
        body: r.body,
        created_at: n.created_at,
        updated_at: r.updated_at,
        deleted_at: r.deleted_at,
        synced_at: r.synced_at,
        other_body: r.other_body,
    }
}

/// A stored row as the phone is told to write it.
pub open spec fn from_row(r: RowView) -> SyncView {
    SyncView {
        id: r.id,
        body: r.body,
        created_at: r.created_at,
        updated_at: r.updated_at,
        deleted_at: r.deleted_at,
        synced_at: r.synced_at,
        other_body: r.other_body,
    }
}

/// Both sides have the note: the row after the sync, and what the phone is
/// told, if anything.
/// - Only the phone changed it: the phone's copy is kept and stamped.
/// - Only the PC changed it: the PC's copy is kept and stamped.
/// - Both or neither changed it and the content is the same: nothing to do
///   when both are the agreed version with no other text; the other text is
///   dropped when the times agree; otherwise the copy is stamped.
/// - Both changed it to different texts: each side keeps its text and
///   stores the other one beside it.
pub open spec fn merge_spec(n: SyncView, r: RowView, now: i64) -> (RowView, Option<SyncView>) {
    let phone_newer = newer(n.updated_at, n.synced_at);
    let pc_newer = newer(r.updated_at, r.synced_at);
    if phone_newer && !pc_newer {
        let s = phone_kept(r, n, now);
        (s, Some(for_phone(n, s)))
    } else if pc_newer && !phone_newer {
        let s = stamped(r, now);
        (s, Some(for_phone(n, s)))
    } else if same_content(n, r) {
        if agreed_times(n, r) && r.other_body is None && n.other_body is None {
            (r, None)
        } else if agreed_times(n, r) {
            let s = RowView { other_body: None, ..r };
            (s, Some(for_phone(n, s)))
        } else {
            let s = stamped(r, now);
            (s, Some(for_phone(n, s)))
        }
    } else {
        (
            RowView { other_body: Some(n.body), ..r },
            Some(SyncView { synced_at: r.synced_at, other_body: Some(r.body), ..n }),
        )
    }
}

/// Where a sync stands after some of its steps: the tables, the notes and
/// purges for the phone so far, and the ids whose declined purge was sent
/// again.
pub struct SyncState {
    pub store: StoreView,
    pub entries: Seq<SyncView>,
    pub purges: Seq<PurgeView>,
    pub echoed: Seq<Seq<char>>,
}

/// A purge the phone sent. The same purge that a decline already answered
/// is not stored: the kept note goes back to the phone instead. Any other is
/// stored (unless one is stored for that id already) and clears the
/// answered purge time of the note.
pub open spec fn purge_step(st: SyncState, p: PurgeView) -> SyncState {
    let s = st.store;
    match s.row_index(p.id) {
        Some(k) if s.rows[k].declined_purged_at == Some(p.purged_at) => SyncState {
            entries: st.entries.push(from_row(s.rows[k])),
            echoed: st.echoed.push(p.id),
            ..st
        },
        found => {
            let purges = if s.purge_index(p.id) is None {
                s.purges.push(p)
            } else {
                s.purges
            };
            let rows = match found {
                Some(k) => if s.rows[k].declined_purged_at is Some {
                    s.rows.update(k, RowView { declined_purged_at: None, ..s.rows[k] })
                } else {
                    s.rows
                },
                None => s.rows,
            };
            SyncState { store: StoreView { rows, purges }, ..st }
        },
    }
}

/// A note the phone sent. A note whose declined purge came again was
/// answered already. A purged id is not written: the phone is asked about
/// the purge. A note both sides have is merged; a note only the phone has
/// is stored.
pub open spec fn note_step(st: SyncState, n: SyncView, now: i64) -> SyncState {
    let s = st.store;
    if st.echoed.contains(n.id) {
        st
    } else {
        match s.purge_index(n.id) {
            Some(j) => SyncState { purges: st.purges.push(s.purges[j]), ..st },
            None => match s.row_index(n.id) {
                Some(k) => {
                    let (r, e) = merge_spec(n, s.rows[k], now);
                    SyncState {
                        store: s.with_rows(s.rows.update(k, r)),
                        entries: match e {
                            Some(e) => st.entries.push(e),
                            None => st.entries,
                        },
                        ..st
                    }
                },
                None => {
                    let r = phone_row(n, now);
                    SyncState {
                        store: s.with_rows(s.rows.push(r)),
                        entries: st.entries.push(for_phone(n, r)),
                        ..st
                    }
                },
            },
        }
    }
}

/// The sync state after the phone's purges, in order.
pub open spec fn after_purges(s: StoreView, ps: Seq<PurgeView>) -> SyncState
    decreases ps.len(),
{
    if ps.len() == 0 {
        SyncState { store: s, entries: Seq::empty(), purges: Seq::empty(), echoed: Seq::empty() }
    } else {
        purge_step(after_purges(s, ps.drop_last()), ps.last())
    }
}

/// The sync state after the phone's notes, in order.
pub open spec fn after_notes(st: SyncState, ns: Seq<SyncView>, now: i64) -> SyncState
    decreases ns.len(),
{
    if ns.len() == 0 {
        st
    } else {
        note_step(after_notes(st, ns.drop_last(), now), ns.last(), now)
    }
}

/// A note only the PC has: no purge is stored for it and the phone sent
/// neither the note nor a purge of it.
pub open spec fn pc_only(
    s: StoreView,
    ns: Seq<SyncView>,
    ps: Seq<PurgeView>,
    r: RowView,
) -> bool {
    s.purge_index(r.id) is None && !sync_ids(ns).contains(r.id) && !purge_ids(ps).contains(r.id)
}

/// `POST /api/sync` on parsed notes and purges at `now`: the tables after
/// the sync, the notes the phone should write and the purges it should ask
/// about. The purges are handled first, then the notes; last, every note
/// only the PC has is stamped and sent.
pub open spec fn sync_spec(s: StoreView, ns: Seq<SyncView>, ps: Seq<PurgeView>, now: i64) -> (
    StoreView,
    Seq<SyncView>,
    Seq<PurgeView>,
) {
    let st = after_notes(after_purges(s, ps), ns, now);
    let t = st.store;
    let only = |r: RowView| pc_only(t, ns, ps, r);
    let rows = t.rows.map_values(|r: RowView| if only(r) { stamped(r, now) } else { r });
    (
        t.with_rows(rows),
        st.entries + t.rows.filter(only).map_values(|r: RowView| from_row(stamped(r, now))),
        st.purges,
    )
}

/// What a decline request carries besides the id.
#[derive(Debug)]
pub enum Supplied {
    /// No body.
    Nothing,
    /// A body that is not JSON.
    Unreadable,
    /// A JSON body.
    Value(JsonValue),
}

/// The note stored by a decline where the PC no longer had it: the supplied
/// copy, with the purge time it answered.
pub open spec fn declined_row(n: SyncView, purged_at: i64) -> RowView {
    RowView {
        id: n.id,
        body: n.body,
        created_at: n.created_at,
        updated_at: n.updated_at,
        deleted_at: n.deleted_at,
        synced_at: n.synced_at,
        other_body: n.other_body,
        declined_purged_at: Some(purged_at),
    }
}

/// `POST /api/purges/{id}/decline`: the purge is removed. A note still here
/// is kept and remembers the purge time it answered. Otherwise the request
/// must carry the note: no body is refused as a bad id, a body that is not
/// JSON as a bad time, then the note is read, and it must have this id.
pub open spec fn decline_spec(s: StoreView, id: Seq<char>, supplied: Supplied) -> (
    StoreView,
    Result<EntryView, ApiError>,
) {
    match s.purge_index(id) {
        None => (s, Err(ApiError::NotFound)),
        Some(j) => {
            let t = s.purges[j].purged_at;
            let purges = s.purges.remove(j);
            match s.row_index(id) {
                Some(k) => {
                    let r = RowView { declined_purged_at: Some(t), ..s.rows[k] };
                    (StoreView { rows: s.rows.update(k, r), purges }, Ok(entry_of(r)))
                },
                None => match supplied {
                    Supplied::Nothing => (s, Err(ApiError::BadId)),
                    Supplied::Unreadable => (s, Err(ApiError::BadTime)),
                    Supplied::Value(v) => match note_of(v) {
                        Err(e) => (s, Err(e)),
                        Ok(n) => if n.id != id {
                            (s, Err(ApiError::BadId))
                        } else {
                            let r = declined_row(n, t);
                            (StoreView { rows: s.rows.push(r), purges }, Ok(entry_of(r)))
                        },
                    },
                },
            }
        },
    }
}

/// `POST /api/purges/{id}/accept`: an unknown purge is not found; otherwise
/// the note with that id, if any, is removed and the purge stays.
pub open spec fn accept_spec(s: StoreView, id: Seq<char>) -> (StoreView, Result<(), ApiError>) {
    match s.purge_index(id) {
        None => (s, Err(ApiError::NotFound)),
        Some(_) => match s.row_index(id) {
            Some(k) => (s.with_rows(s.rows.remove(k)), Ok(())),
            None => (s, Ok(())),
        },
    }
}

/// The note kept under an id (any note where there is none).
pub open spec fn row_of(s: StoreView, id: Seq<char>) -> RowView {
    match s.row_index(id) {
        Some(k) => s.rows[k],
        None => s.rows[0],
    }
}

/// The order of pending purges: by `purged_at`, then by id.
pub open spec fn pending_key(p: PurgeView) -> SortKey {
    (p.purged_at, p.id)
}

/// `chosen` is every purge whose id is still a note, oldest purge first.
pub open spec fn is_pending_list(s: StoreView, chosen: Seq<PurgeView>) -> bool {
    first_by(
        s.purges.filter(|p: PurgeView| s.row_index(p.id) is Some),
        |p: PurgeView| pending_key(p),
        false,
        s.purges.len() as int,
        chosen,
    )
}

/// The views of pending purges.
pub open spec fn pending_views(s: Seq<PendingPurge>) -> Seq<PendingView> {
    s.map_values(|p: PendingPurge| p@)
}

/// The answer to a sync request.
pub open spec fn payload_view(p: SyncPayload) -> (Seq<SyncView>, Seq<PurgeView>) {
    (sync_views(p.entries@), purge_views(p.purges@))
}

/// A pending purge: the purge, and whether the PC copy changed after the
/// last sync that agreed on it.
pub open spec fn pending_of(p: PurgeView, r: RowView) -> PendingView {
    PendingView {
        id: p.id,
        purged_at: p.purged_at,
        changed: newer(r.updated_at, r.synced_at),
    }
}

/// The texts of strings.
pub open spec fn text_views(v: Seq<String>) -> Seq<Seq<char>> {
    v.map_values(|t: String| t@)
}

/// The sync state that the exec values of a sync stand for.
pub open spec fn state_of(
    store: StoreView,
    entries: Seq<SyncEntry>,
    out: Seq<SyncPurge>,
    echoed: Seq<String>,
) -> SyncState {
    SyncState {
        store,
        entries: sync_views(entries),
        purges: purge_views(out),
        echoed: text_views(echoed),
    }
}

/// The view of an optional sync entry.
pub open spec fn opt_sync(e: Option<SyncEntry>) -> Option<SyncView> {
    match e {
        Some(e) => Some(e@),
        None => None,
    }
}

/// A stored row as the phone is told to write it.
fn sync_from_row(r: &Row) -> (e: SyncEntry)
    ensures
        e@ == from_row(r@),
{
    SyncEntry {
        id: r.id.clone(),
        body: r.body.clone(),
        created_at: r.created_at,
        updated_at: r.updated_at,
        deleted_at: r.deleted_at,
        synced_at: r.synced_at,
        other_body: copy_opt_text(&r.other_body),
    }
}

/// The stored row's state under the phone's id and `created_at`.
fn sync_for_phone(n: &SyncEntry, r: &Row) -> (e: SyncEntry)
    ensures
        e@ == for_phone(n@, r@),
{
    SyncEntry {
        id: n.id.clone(),
        body: r.body.clone(),
        created_at: n.created_at,
        updated_at: r.updated_at,
        deleted_at: r.deleted_at,
        synced_at: r.synced_at,
        other_body: copy_opt_text(&r.other_body),
    }
}

/// Whether the text is among the texts.
fn contains_text(texts: &Vec<String>, id: &String) -> (b: bool)
    ensures
        b == text_views(texts@).contains(id@),
{
    let mut i: usize = 0;
    while i < texts.len()
        invariant
            i <= texts.len(),
            forall|k: int| 0 <= k < i ==> (#[trigger] texts@[k])@ != id@,
        decreases texts.len() - i,
    {
        if texts[i] == *id {
            assert(text_views(texts@)[i as int] == id@);
            return true;
        }
        i += 1;
    }
    assert forall|k: int| 0 <= k < texts@.len() implies #[trigger] text_views(texts@)[k]
        != id@ by {
        assert(texts@[k]@ != id@);
    }
    false
}

/// Whether the phone sent a note with this id.
fn note_sent(notes: &Vec<SyncEntry>, id: &String) -> (b: bool)
    ensures
        b == sync_ids(sync_views(notes@)).contains(id@),
{
    let mut i: usize = 0;
    while i < notes.len()
        invariant
            i <= notes.len(),
            forall|k: int| 0 <= k < i ==> (#[trigger] notes@[k])@.id != id@,
        decreases notes.len() - i,
    {
        if notes[i].id == *id {
            assert(sync_ids(sync_views(notes@))[i as int] == id@);
            return true;
        }
        i += 1;
    }
    assert forall|k: int| 0 <= k < notes@.len() implies #[trigger] sync_ids(sync_views(notes@))[k]
        != id@ by {
        assert(notes@[k]@.id != id@);
    }
    false
}

/// Whether the phone sent a purge of this id.
fn purge_sent(purges: &Vec<SyncPurge>, id: &String) -> (b: bool)
    ensures
        b == purge_ids(purge_views(purges@)).contains(id@),
{
    let mut i: usize = 0;
    while i < purges.len()
        invariant
            i <= purges.len(),
            forall|k: int| 0 <= k < i ==> (#[trigger] purges@[k])@.id != id@,
        decreases purges.len() - i,
    {
        if purges[i].id == *id {
            assert(purge_ids(purge_views(purges@))[i as int] == id@);
            return true;
        }
        i += 1;
    }
    assert forall|k: int| 0 <= k < purges@.len() implies #[trigger] purge_ids(
        purge_views(purges@),
    )[k] != id@ by {
        assert(purges@[k]@.id != id@);
    }
    false
}

/// Whether the phone copy and the row hold the same content.
fn content_matches(n: &SyncEntry, r: &Row) -> (b: bool)
    ensures
        b == same_content(n@, r@),
{
    n.body == r.body && n.deleted_at.is_some() == r.deleted_at.is_some()
}

/// Whether both copies are still the agreed version.
fn times_agree(n: &SyncEntry, r: &Row) -> (b: bool)
    ensures
        b == agreed_times(n@, r@),
{
    match r.synced_at {
        Some(t) => r.updated_at == t && n.updated_at == t && match n.synced_at {
            Some(u) => u == t,
            None => false,
        },
        None => false,
    }
}

/// Both sides have the note kept at `k`: merges the phone's copy into it.
fn merge_note(store: &mut Store, n: &SyncEntry, k: usize, now: i64) -> (e: Option<SyncEntry>)
    requires
        old(store)@.wf(),
        k < old(store)@.rows.len(),
        old(store)@.rows[k as int].id == n@.id,
    ensures
        final(store)@.wf(),
        final(store)@ == old(store)@.with_rows(
            old(store)@.rows.update(k as int, merge_spec(n@, old(store)@.rows[k as int], now).0),
        ),
        opt_sync(e) == merge_spec(n@, old(store)@.rows[k as int], now).1,
{
    let row = store.row(k).copy();
    let phone_newer = is_newer(n.updated_at, n.synced_at);
    let pc_newer = is_newer(row.updated_at, row.synced_at);
    if phone_newer && !pc_newer {
        let kept = Row {
            body: n.body.clone(),
            deleted_at: n.deleted_at,
            updated_at: now,
            synced_at: Some(now),
            other_body: None,
            ..row
        };
        let e = sync_for_phone(n, &kept);
        store.replace_row(k, kept);
        return Some(e);
    }
    if pc_newer && !phone_newer {
        let kept = Row { updated_at: now, synced_at: Some(now), other_body: None, ..row };
        let e = sync_for_phone(n, &kept);
        store.replace_row(k, kept);
        return Some(e);
    }
    if content_matches(n, &row) {
        let agreed = times_agree(n, &row);
        if agreed && row.other_body.is_none() && n.other_body.is_none() {
            assert(old(store)@.rows.update(k as int, old(store)@.rows[k as int]) == old(
                store,
            )@.rows);
            return None;
        }
        if agreed {
            let kept = Row { other_body: None, ..row };
            let e = sync_for_phone(n, &kept);
            store.replace_row(k, kept);
            return Some(e);
        }
        let kept = Row { updated_at: now, synced_at: Some(now), other_body: None, ..row };
        let e = sync_for_phone(n, &kept);
        store.replace_row(k, kept);
        return Some(e);
    }
    let row_body = row.body.clone();
    let row_synced = row.synced_at;
    let kept = Row { other_body: Some(n.body.clone()), ..row };
    store.replace_row(k, kept);
    Some(
        SyncEntry {
            id: n.id.clone(),
            body: n.body.clone(),
            created_at: n.created_at,
            updated_at: n.updated_at,
            deleted_at: n.deleted_at,
            synced_at: row_synced,
            other_body: Some(row_body),
        },
    )
}

impl Store {
    /// `POST /api/sync` on parsed notes and purges at `now`.
    pub fn apply_sync(&mut self, notes: &Vec<SyncEntry>, purges: &Vec<SyncPurge>, now: i64) -> (out:
        SyncPayload)
        requires
            old(self)@.wf(),
        ensures
            final(self)@.wf(),
            (final(self)@, payload_view(out).0, payload_view(out).1) == sync_spec(
                old(self)@,
                sync_views(notes@),
                purge_views(purges@),
                now,
            ),
    {
        let ghost s0 = self@;
        let ghost ns = sync_views(notes@);
        let ghost ps = purge_views(purges@);
        let mut entries: Vec<SyncEntry> = Vec::new();
        let mut out: Vec<SyncPurge> = Vec::new();
        let mut echoed: Vec<String> = Vec::new();
        proof {
            assert(sync_views(entries@) =~= Seq::<SyncView>::empty());
            assert(purge_views(out@) =~= Seq::<PurgeView>::empty());
            assert(text_views(echoed@) =~= Seq::<Seq<char>>::empty());
            assert(ps.take(0).len() == 0);
            assert(state_of(self@, entries@, out@, echoed@) == after_purges(s0, ps.take(0)));
        }
        let mut i: usize = 0;
        while i < purges.len()
            invariant
                i <= purges.len(),
                ps == purge_views(purges@),
                self@.wf(),
                state_of(self@, entries@, out@, echoed@) == after_purges(s0, ps.take(i as int)),
            decreases purges.len() - i,
        {
            let ghost st = state_of(self@, entries@, out@, echoed@);
            proof {
                assert(ps.take(i + 1).drop_last() == ps.take(i as int));
                assert(ps.take(i + 1).last() == purges@[i as int]@);
            }
            let p = &purges[i];
            let found = self.find_row(&p.id);
            let declined = match found {
                Some(k) => match self.row(k).declined_purged_at {
                    Some(t) => t == p.purged_at,
                    None => false,
                },
                None => false,
            };
            if declined {
                let k = match found {
                    Some(k) => k,
                    None => 0,
                };
                let e = sync_from_row(self.row(k));
                entries.push(e);
                echoed.push(p.id.clone());
                proof {
                    assert(sync_views(entries@) == st.entries.push(e@));
                    assert(text_views(echoed@) == st.echoed.push(p@.id));
                }
            } else {
                if self.find_purge(&p.id).is_none() {
                    self.push_purge(p.copy());
                }
                match found {
                    Some(k) => {
                        if self.row(k).declined_purged_at.is_some() {
                            let r = Row { declined_purged_at: None, ..self.row(k).copy() };
                            self.replace_row(k, r);
                        }
                    },
                    None => {},
                }
            }
            i += 1;
        }
        let ghost st1 = state_of(self@, entries@, out@, echoed@);
        proof {
            assert(ps.take(purges.len() as int) == ps);
            assert(st1 == after_notes(st1, ns.take(0), now));
        }
        let mut i: usize = 0;
        while i < notes.len()
            invariant
                i <= notes.len(),
                ns == sync_views(notes@),
                self@.wf(),
                state_of(self@, entries@, out@, echoed@) == after_notes(
                    st1,
                    ns.take(i as int),
                    now,
                ),
            decreases notes.len() - i,
        {
            let ghost st = state_of(self@, entries@, out@, echoed@);
            proof {
                assert(ns.take(i + 1).drop_last() == ns.take(i as int));
                assert(ns.take(i + 1).last() == notes@[i as int]@);
            }
            let n = &notes[i];
            if contains_text(&echoed, &n.id) {
            } else {
                match self.find_purge(&n.id) {
                    Some(j) => {
                        let p = self.purge(j).copy();
                        out.push(p);
                        assert(purge_views(out@) == st.purges.push(p@));
                    },
                    None => match self.find_row(&n.id) {
                        Some(k) => {
                            let e = merge_note(self, n, k, now);
                            match e {
                                Some(e) => {
                                    let ghost ev = e@;
                                    entries.push(e);
                                    assert(sync_views(entries@) == st.entries.push(ev));
                                },
                                None => {},
                            }
                        },
                        None => {
                            let r = Row {
                                id: n.id.clone(),
                                body: n.body.clone(),
                                created_at: n.created_at,
                                updated_at: now,
                                deleted_at: n.deleted_at,
                                synced_at: Some(now),
                                other_body: None,
                                declined_purged_at: None,
                            };
                            let e = sync_for_phone(n, &r);
                            self.push_row(r);
                            let ghost ev = e@;
                            entries.push(e);
                            assert(sync_views(entries@) == st.entries.push(ev));
                        },
                    },
                }
            }
            i += 1;
        }
        let ghost st2 = state_of(self@, entries@, out@, echoed@);
        let ghost t = self@;
        let ghost only = |r: RowView| pc_only(t, ns, ps, r);
        let ghost base = st2.entries;
        proof {
            assert(ns.take(notes.len() as int) == ns);
            assert(st2 == after_notes(after_purges(s0, ps), ns, now));
            reveal(Seq::filter);
            assert(t.rows.take(0).filter(only) =~= Seq::<RowView>::empty());
        }
        let count = self.row_count();
        let mut k: usize = 0;
        while k < count
            invariant
                k <= count == t.rows.len(),
                ns == sync_views(notes@),
                ps == purge_views(purges@),
                only == (|r: RowView| pc_only(t, ns, ps, r)),
                self@.wf(),
                self@.purges == t.purges,
                self@.rows.len() == t.rows.len(),
                forall|j: int|
                    0 <= j < k ==> #[trigger] self@.rows[j] == (if only(t.rows[j]) {
                        stamped(t.rows[j], now)
                    } else {
                        t.rows[j]
                    }),
                forall|j: int| k <= j < t.rows.len() ==> #[trigger] self@.rows[j] == t.rows[j],
                sync_views(entries@) == base + t.rows.take(k as int).filter(only).map_values(
                    |r: RowView| from_row(stamped(r, now)),
                ),
            decreases count - k,
        {
            proof {
                assert(t.rows.take(k + 1) == t.rows.take(k as int).push(t.rows[k as int]));
                t.rows.take(k as int).lemma_filter_push(t.rows[k as int], only);
            }
            let id = self.row(k).id.clone();
            let pick = self.find_purge(&id).is_none() && !note_sent(notes, &id) && !purge_sent(
                purges,
                &id,
            );
            assert(pick == only(t.rows[k as int]));
            if pick {
                let ghost before = entries@;
                let r = Row {
                    updated_at: now,
                    synced_at: Some(now),
                    other_body: None,
                    ..self.row(k).copy()
                };
                let e = sync_from_row(&r);
                self.replace_row(k, r);
                entries.push(e);
                proof {
                    assert(sync_views(entries@) == sync_views(before).push(e@));
                    assert(t.rows.take(k + 1).filter(only).map_values(
                        |r: RowView| from_row(stamped(r, now)),
                    ) == t.rows.take(k as int).filter(only).map_values(
                        |r: RowView| from_row(stamped(r, now)),
                    ).push(from_row(stamped(t.rows[k as int], now))));
                }
            }
            k += 1;
        }
        proof {
            assert(t.rows.take(count as int) == t.rows);
            assert(self@.rows == t.rows.map_values(
                |r: RowView|
                    if only(r) {
                        stamped(r, now)
                    } else {
                        r
                    },
            ));
        }
        SyncPayload { entries, purges: out }
    }

    /// `POST /api/sync` at `now`: reads the request, then syncs. A request
    /// that cannot be read changes nothing.
    pub fn sync_entries(&mut self, request: &JsonValue, now: i64) -> (r: Result<
        SyncPayload,
        ApiError,
    >)
        requires
            old(self)@.wf(),
        ensures
            final(self)@.wf(),
            match sync_request_of(*request) {
                Err(e) => r == Err::<SyncPayload, ApiError>(e) && final(self)@ == old(self)@,
                Ok((ns, ps)) => match r {
                    Ok(p) => (final(self)@, payload_view(p).0, payload_view(p).1) == sync_spec(
                        old(self)@,
                        ns,
                        ps,
                        now,
                    ),
                    Err(_) => false,
                },
            },
    {
        let (notes, purges) = parse_sync(request)?;
        Ok(self.apply_sync(&notes, &purges, now))
    }

    /// `GET /api/purges/pending`: each purge whose id is still a note here,
    /// by `purged_at`, then by id.
    pub fn list_pending_purges(&self) -> (out: Vec<PendingPurge>)
        requires
            self@.wf(),
        ensures
            exists|chosen: Seq<PurgeView>|
                is_pending_list(self@, chosen) && pending_views(out@) == chosen.map_values(
                    |p: PurgeView| pending_of(p, row_of(self@, p.id)),
                ),
    {
        let ghost s = self@;
        let ghost sel = |p: PurgeView| s.row_index(p.id) is Some;
        let ghost key = |p: PurgeView| pending_key(p);
        let mut places: Vec<usize> = Vec::new();
        let mut keys: Vec<(i64, Vec<char>)> = Vec::new();
        let mut rows_at: Vec<usize> = Vec::new();
        let n = self.purge_count();
        proof {
            reveal(Seq::filter);
            assert(s.purges.take(0).filter(sel) =~= Seq::<PurgeView>::empty());
        }
        let mut i: usize = 0;
        while i < n
            invariant
                n == s.purges.len(),
                s == self@,
                s.wf(),
                sel == (|p: PurgeView| s.row_index(p.id) is Some),
                key == (|p: PurgeView| pending_key(p)),
                i <= n,
                places@.len() == keys@.len(),
                rows_at@.len() == keys@.len(),
                forall|a: int| 0 <= a < places@.len() ==> #[trigger] places@[a] < i,
                forall|a: int, b: int|
                    0 <= a < b < places@.len() ==> #[trigger] places@[a] < #[trigger] places@[b],
                places@.map_values(|p: usize| s.purges[p as int]) == s.purges.take(i as int).filter(
                    sel,
                ),
                forall|a: int|
                    0 <= a < keys@.len() ==> key_view(#[trigger] keys@[a]) == key(
                        s.purges[places@[a] as int],
                    ),
                forall|a: int|
                    0 <= a < rows_at@.len() ==> s.row_index(s.purges[places@[a] as int].id) == Some(
                        #[trigger] rows_at@[a] as int,
                    ) && rows_at@[a] < s.rows.len(),
            decreases n - i,
        {
            let ghost before = places@;
            proof {
                assert(s.purges.take(i + 1) == s.purges.take(i as int).push(s.purges[i as int]));
                s.purges.take(i as int).lemma_filter_push(s.purges[i as int], sel);
            }
            let p = self.purge(i);
            match self.find_row(&p.id) {
                Some(k) => {
                    let id_chars = chars_of(p.id.as_str());
                    places.push(i);
                    keys.push((p.purged_at, id_chars));
                    rows_at.push(k);
                    assert(places@.map_values(|q: usize| s.purges[q as int]) == before.map_values(
                        |q: usize| s.purges[q as int],
                    ).push(s.purges[i as int]));
                    assert(key_view(keys@[keys@.len() - 1]) == key(s.purges[i as int]));
                },
                None => {},
            }
            i += 1;
        }
        let ghost cands = s.purges.filter(sel);
        proof {
            assert(s.purges.take(n as int) == s.purges);
            assert(key_views(keys@) == cands.map_values(|c: PurgeView| key(c))) by {
                assert forall|a: int| 0 <= a < keys@.len() implies key_views(keys@)[a]
                    == cands.map_values(|c: PurgeView| key(c))[a] by {
                    assert(cands[a] == s.purges[places@[a] as int]);
                }
            }
            assert forall|a: int, b: int|
                0 <= a < b < keys@.len() implies key_view(#[trigger] keys@[a]) != key_view(
                    #[trigger] keys@[b],
                ) by {
                let pa = places@[a] as int;
                let pb = places@[b] as int;
                assert(pa < pb);
                assert(purge_ids(s.purges)[pa] != purge_ids(s.purges)[pb]);
            }
        }
        let idx = rank(&keys, false, n);
        proof {
            lemma_ranked_first_by(cands, key, false, n as int, idx@);
        }
        let ghost chosen = idx@.map_values(|j: usize| cands[j as int]);
        let mut out: Vec<PendingPurge> = Vec::new();
        let mut j: usize = 0;
        while j < idx.len()
            invariant
                j <= idx@.len(),
                s == self@,
                chosen.len() == idx@.len(),
                cands == s.purges.filter(sel),
                places@.map_values(|p: usize| s.purges[p as int]) == cands,
                rows_at@.len() == places@.len(),
                forall|a: int| 0 <= a < idx@.len() ==> #[trigger] idx@[a] < places@.len(),
                forall|a: int| 0 <= a < places@.len() ==> #[trigger] places@[a] < s.purges.len(),
                forall|a: int|
                    0 <= a < rows_at@.len() ==> s.row_index(s.purges[places@[a] as int].id) == Some(
                        #[trigger] rows_at@[a] as int,
                    ) && rows_at@[a] < s.rows.len(),
                forall|a: int| 0 <= a < idx@.len() ==> chosen[a] == cands[#[trigger] idx@[a] as int],
                pending_views(out@) == chosen.take(j as int).map_values(
                    |p: PurgeView| pending_of(p, row_of(s, p.id)),
                ),
            decreases idx@.len() - j,
        {
            let q = places[idx[j]];
            let k = rows_at[idx[j]];
            let p = self.purge(q);
            let r = self.row(k);
            let item = PendingPurge {
                id: p.id.clone(),
                purged_at: p.purged_at,
                changed: is_newer(r.updated_at, r.synced_at),
            };
            proof {
                assert(cands[idx@[j as int] as int] == s.purges[q as int]);
                assert(row_of(s, p@.id) == r@);
                assert(chosen.take(j + 1) == chosen.take(j as int).push(chosen[j as int]));
            }
            let ghost before = out@;
            out.push(item);
            proof {
                assert(out@ == before.push(item));
                assert(pending_views(out@) == pending_views(before).push(item@));
                assert(pending_views(out@) == chosen.take(j + 1).map_values(
                    |p: PurgeView| pending_of(p, row_of(s, p.id)),
                ));
            }
            j += 1;
        }
        proof {
            assert(chosen.take(idx@.len() as int) == chosen);
            assert(is_pending_list(self@, chosen));
        }
        out
    }

    /// `POST /api/purges/{id}/accept`: removes the note and keeps the purge,
    /// so the id is not written again.
    pub fn accept_purge(&mut self, id: &str) -> (r: Result<(), ApiError>)
        requires
            old(self)@.wf(),
        ensures
            final(self)@.wf(),
            (final(self)@, r) == accept_spec(old(self)@, id@),
    {
        let key = id.to_owned();
        if self.find_purge(&key).is_none() {
            return Err(ApiError::NotFound);
        }
        match self.find_row(&key) {
            Some(k) => {
                self.remove_row(k);
            },
            None => {},
        }
        Ok(())
    }

    /// `POST /api/purges/{id}/decline`: removes the purge and keeps the note,
    /// marking the purge time as answered; where the note is gone here, the
    /// supplied copy is stored.
    pub fn decline_purge(&mut self, id: &str, supplied: &Supplied) -> (r: Result<Entry, ApiError>)
        requires
            old(self)@.wf(),
        ensures
            final(self)@.wf(),
            (final(self)@, entry_result(r)) == decline_spec(old(self)@, id@, *supplied),
    {
        let key = id.to_owned();
        let j = match self.find_purge(&key) {
            Some(j) => j,
            None => {
                return Err(ApiError::NotFound);
            },
        };
        let purged_at = self.purge(j).purged_at;
        match self.find_row(&key) {
            Some(k) => {
                let r = Row { declined_purged_at: Some(purged_at), ..self.row(k).copy() };
                let entry = entry_from_row(&r);
                self.replace_row(k, r);
                self.remove_purge(j);
                Ok(entry)
            },
            None => {
                let value = match supplied {
                    Supplied::Nothing => {
                        return Err(ApiError::BadId);
                    },
                    Supplied::Unreadable => {
                        return Err(ApiError::BadTime);
                    },
                    Supplied::Value(v) => v,
                };
                let note = parse_note(value)?;
                if note.id != key {
                    return Err(ApiError::BadId);
                }
                let r = Row {
                    id: note.id,
                    body: note.body,
                    created_at: note.created_at,
                    updated_at: note.updated_at,
                    deleted_at: note.deleted_at,
                    synced_at: note.synced_at,
                    other_body: note.other_body,
                    declined_purged_at: Some(purged_at),
                };
                let entry = entry_from_row(&r);
                self.push_row(r);
                self.remove_purge(j);
                Ok(entry)
            },
        }
    }
}

} // verus!
