use session_log::error::ApiError;
use session_log::json::JsonValue;
use session_log::model::{SyncEntry, SyncPayload, SyncPurge};
use session_log::store::Store;
use session_log::sync::Supplied;
use session_log::time::parse_instant;

const WRITTEN: &str = "2020-01-01T00:00:00Z";
const EDITED: &str = "2020-01-02T00:00:00Z";
const LATER: &str = "2099-01-01T00:00:00Z";
const PURGED: &str = "2024-06-01T00:00:00Z";
const PURGED_AGAIN: &str = "2025-01-01T00:00:00Z";

/// The PC clock during a test: after the phone's edits, before `LATER`.
struct Clock(i64);

impl Clock {
    fn new() -> Clock {
        Clock(time("2025-06-01T00:00:00Z"))
    }

    fn tick(&mut self) -> i64 {
        self.0 += 20_000;
        self.0
    }
}

fn time(text: &str) -> i64 {
    parse_instant(text).unwrap()
}

fn uuid(n: u32) -> String {
    format!("00000000-0000-4000-8000-{n:012x}")
}

fn text(s: &str) -> JsonValue {
    JsonValue::Text(s.to_string())
}

fn object(fields: Vec<(&str, JsonValue)>) -> JsonValue {
    JsonValue::Object(fields.into_iter().map(|(k, v)| (k.to_string(), v)).collect())
}

fn opt_time(t: Option<&str>) -> JsonValue {
    match t {
        Some(t) => text(t),
        None => JsonValue::Null,
    }
}

fn phone_note(
    n: u32,
    body: &str,
    updated_at: &str,
    deleted_at: Option<&str>,
    synced_at: Option<&str>,
) -> JsonValue {
    object(vec![
        ("id", text(&uuid(n))),
        ("body", text(body)),
        ("created_at", text(WRITTEN)),
        ("updated_at", text(updated_at)),
        ("deleted_at", opt_time(deleted_at)),
        ("synced_at", opt_time(synced_at)),
        ("other_body", JsonValue::Null),
    ])
}

fn purge(n: u32, purged_at: &str) -> JsonValue {
    object(vec![("id", text(&uuid(n))), ("purged_at", text(purged_at))])
}

fn request(entries: Vec<JsonValue>, purges: Vec<JsonValue>) -> JsonValue {
    object(vec![("entries", JsonValue::Array(entries)), ("purges", JsonValue::Array(purges))])
}

fn sync(store: &mut Store, clock: &mut Clock, entries: Vec<JsonValue>, purges: Vec<JsonValue>) -> SyncPayload {
    store.sync_entries(&request(entries, purges), clock.tick()).unwrap()
}

fn send_back(store: &mut Store, clock: &mut Clock, entries: Vec<SyncEntry>, purges: Vec<SyncPurge>) -> SyncPayload {
    store.apply_sync(&entries, &purges, clock.tick())
}

fn assert_stamped(entry: &SyncEntry) {
    assert!(entry.synced_at.is_some());
    assert_eq!(Some(entry.updated_at), entry.synced_at);
    assert!(entry.other_body.is_none());
}

fn only_entry(synced: &SyncPayload) -> SyncEntry {
    assert!(synced.purges.is_empty());
    assert_eq!(synced.entries.len(), 1);
    synced.entries[0].copy()
}

fn agree(store: &mut Store, clock: &mut Clock, n: u32, body: &str) -> SyncEntry {
    let synced = sync(store, clock, vec![phone_note(n, body, EDITED, None, None)], vec![]);
    let entry = only_entry(&synced);
    assert_eq!(entry.id, uuid(n));
    assert_eq!(entry.body, body);
    assert_stamped(&entry);
    entry
}

fn edit(store: &mut Store, clock: &mut Clock, n: u32, body: &str) {
    assert!(store.update_entry(&uuid(n), body, clock.tick()).is_ok());
}

#[test]
fn phone_only_note_is_stored() {
    let (mut store, mut clock) = (Store::new(), Clock::new());
    let synced = sync(&mut store, &mut clock, vec![phone_note(1, "from phone", EDITED, None, None)], vec![]);
    let entry = only_entry(&synced);
    assert_eq!(entry.id, uuid(1));
    assert_eq!(entry.body, "from phone");
    assert_eq!(entry.created_at, time(WRITTEN));
    assert!(entry.deleted_at.is_none());
    assert_stamped(&entry);

    let visible = store.list_entries();
    assert_eq!(visible[0].id, uuid(1));
    assert_eq!(visible[0].body, "from phone");
    assert!(visible[0].deleted_at.is_none());
    assert!(visible[0].other_body.is_none());
}

#[test]
fn pc_only_note_is_sent_once() {
    let (mut store, mut clock) = (Store::new(), Clock::new());
    assert!(store.create_entry(&uuid(1), "from pc", clock.tick()).is_ok());

    let synced = sync(&mut store, &mut clock, vec![], vec![]);
    let entry = only_entry(&synced);
    assert_eq!(entry.id, uuid(1));
    assert_eq!(entry.body, "from pc");
    assert_stamped(&entry);

    let again = send_back(&mut store, &mut clock, vec![entry], vec![]);
    assert!(again.entries.is_empty());
    assert!(again.purges.is_empty());
}

#[test]
fn newer_phone_text_is_kept() {
    let (mut store, mut clock) = (Store::new(), Clock::new());
    let agreed = agree(&mut store, &mut clock, 1, "old");
    let mut phone = agreed.copy();
    phone.body = "new".to_string();
    phone.updated_at = time(LATER);

    let synced = send_back(&mut store, &mut clock, vec![phone], vec![]);
    let entry = only_entry(&synced);
    assert_eq!(entry.body, "new");
    assert_stamped(&entry);
    assert_ne!(entry.synced_at, agreed.synced_at);

    assert_eq!(store.list_entries()[0].body, "new");
}

#[test]
fn newer_phone_soft_delete_is_kept() {
    let (mut store, mut clock) = (Store::new(), Clock::new());
    let mut phone = agree(&mut store, &mut clock, 1, "gone");
    phone.updated_at = time(LATER);
    phone.deleted_at = Some(time(LATER));

    let synced = send_back(&mut store, &mut clock, vec![phone], vec![]);
    let entry = only_entry(&synced);
    assert_eq!(entry.body, "gone");
    assert_eq!(entry.deleted_at, Some(time(LATER)));
    assert_stamped(&entry);

    assert!(store.list_entries().is_empty());
    let deleted = store.list_deleted();
    assert_eq!(deleted[0].body, "gone");
    assert_eq!(deleted[0].deleted_at, Some(time(LATER)));
}

#[test]
fn newer_pc_text_is_kept() {
    let (mut store, mut clock) = (Store::new(), Clock::new());
    let agreed = agree(&mut store, &mut clock, 1, "old");
    edit(&mut store, &mut clock, 1, "from pc");

    let synced = send_back(&mut store, &mut clock, vec![agreed], vec![]);
    let entry = only_entry(&synced);
    assert_eq!(entry.body, "from pc");
    assert_stamped(&entry);

    assert_eq!(store.list_entries()[0].body, "from pc");
}

#[test]
fn both_newer_keep_both_texts() {
    let (mut store, mut clock) = (Store::new(), Clock::new());
    let agreed = agree(&mut store, &mut clock, 1, "shared");
    edit(&mut store, &mut clock, 1, "pc text");
    let mut phone = agreed.copy();
    phone.body = "phone text".to_string();
    phone.updated_at = time(LATER);

    let synced = send_back(&mut store, &mut clock, vec![phone], vec![]);
    let entry = only_entry(&synced);
    assert_eq!(entry.body, "phone text");
    assert_eq!(entry.other_body.as_deref(), Some("pc text"));
    assert_eq!(entry.synced_at, agreed.synced_at);

    let visible = store.list_entries();
    assert_eq!(visible[0].body, "pc text");
    assert_eq!(visible[0].other_body.as_deref(), Some("phone text"));
}

#[test]
fn both_newer_same_text_agrees() {
    let (mut store, mut clock) = (Store::new(), Clock::new());
    let agreed = agree(&mut store, &mut clock, 1, "old");
    edit(&mut store, &mut clock, 1, "same");
    let mut phone = agreed.copy();
    phone.body = "same".to_string();
    phone.updated_at = time(LATER);

    let synced = send_back(&mut store, &mut clock, vec![phone], vec![]);
    let entry = only_entry(&synced);
    assert_eq!(entry.body, "same");
    assert_stamped(&entry);
    assert_ne!(entry.synced_at, agreed.synced_at);
}

#[test]
fn unsynced_same_text_agrees() {
    let (mut store, mut clock) = (Store::new(), Clock::new());
    let created = store.create_entry(&uuid(1), "same", clock.tick()).unwrap();

    let synced = sync(&mut store, &mut clock, vec![phone_note(1, "same", EDITED, None, None)], vec![]);
    let entry = only_entry(&synced);
    assert_eq!(entry.body, "same");
    assert_eq!(entry.created_at, time(WRITTEN));
    assert_stamped(&entry);

    let visible = store.list_entries();
    assert_eq!(visible[0].body, "same");
    assert_eq!(visible[0].created_at, created.created_at);
}

#[test]
fn unsynced_different_texts_stay() {
    let (mut store, mut clock) = (Store::new(), Clock::new());
    let created = store.create_entry(&uuid(1), "pc text", clock.tick()).unwrap();

    let synced = sync(&mut store, &mut clock, vec![phone_note(1, "phone text", EDITED, None, None)], vec![]);
    let entry = only_entry(&synced);
    assert_eq!(entry.body, "phone text");
    assert_eq!(entry.other_body.as_deref(), Some("pc text"));
    assert!(entry.synced_at.is_none());

    let visible = store.list_entries();
    assert_eq!(visible[0].body, "pc text");
    assert_eq!(visible[0].other_body.as_deref(), Some("phone text"));
    assert_eq!(visible[0].created_at, created.created_at);
}

#[test]
fn phone_purge_asks_then_accept_blocks_the_note() {
    let (mut store, mut clock) = (Store::new(), Clock::new());
    agree(&mut store, &mut clock, 1, "note");
    let synced = sync(&mut store, &mut clock, vec![], vec![purge(1, PURGED)]);
    assert!(synced.entries.is_empty());
    assert!(synced.purges.is_empty());

    assert_eq!(store.list_entries()[0].body, "note");

    let pending = store.list_pending_purges();
    assert_eq!(pending[0].id, uuid(1));
    assert_eq!(pending[0].purged_at, time(PURGED));
    assert!(!pending[0].changed);

    edit(&mut store, &mut clock, 1, "edited");
    let pending = store.list_pending_purges();
    assert!(pending[0].changed);

    assert!(store.accept_purge(&uuid(1)).is_ok());
    assert!(store.list_entries().is_empty());
    assert!(store.list_deleted().is_empty());

    let blocked = sync(&mut store, &mut clock, vec![phone_note(1, "resurrected", LATER, None, None)], vec![]);
    assert!(blocked.entries.is_empty());
    assert_eq!(blocked.purges[0].id, uuid(1));

    assert!(store.list_entries().is_empty());
}

#[test]
fn pc_purge_asks_the_phone() {
    let (mut store, mut clock) = (Store::new(), Clock::new());
    let agreed = agree(&mut store, &mut clock, 1, "note");
    assert!(store.delete_entry(&uuid(1), clock.tick()).is_ok());
    assert!(store.purge_entry(&uuid(1), clock.tick()).is_ok());

    let synced = send_back(&mut store, &mut clock, vec![agreed], vec![]);
    assert!(synced.entries.is_empty());
    assert_eq!(synced.purges[0].id, uuid(1));
    assert!(synced.purges[0].purged_at > time(PURGED));

    assert!(store.list_entries().is_empty());
}

#[test]
fn decline_keeps_the_row_and_ignores_the_same_purge() {
    let (mut store, mut clock) = (Store::new(), Clock::new());
    let agreed = agree(&mut store, &mut clock, 1, "kept");
    let synced = sync(&mut store, &mut clock, vec![], vec![purge(1, PURGED)]);
    assert!(synced.entries.is_empty());

    let entry = store.decline_purge(&uuid(1), &Supplied::Nothing).unwrap();
    assert_eq!(entry.body, "kept");

    let same = SyncPurge { id: uuid(1), purged_at: time(PURGED) };
    let again = send_back(&mut store, &mut clock, vec![agreed.copy()], vec![same]);
    assert!(again.purges.is_empty());
    assert_eq!(again.entries.len(), 1);
    assert_eq!(again.entries[0].body, "kept");

    let later_purge = SyncPurge { id: uuid(1), purged_at: time(PURGED_AGAIN) };
    let later = send_back(&mut store, &mut clock, vec![agreed], vec![later_purge]);
    assert!(later.entries.is_empty());
    assert_eq!(later.purges[0].id, uuid(1));
    assert_eq!(later.purges[0].purged_at, time(PURGED_AGAIN));

    assert_eq!(store.list_entries()[0].body, "kept");
}

#[test]
fn decline_inserts_the_supplied_copy() {
    let (mut store, mut clock) = (Store::new(), Clock::new());
    agree(&mut store, &mut clock, 1, "gone");
    assert!(store.delete_entry(&uuid(1), clock.tick()).is_ok());
    assert!(store.purge_entry(&uuid(1), clock.tick()).is_ok());

    let payload = phone_note(1, "back", EDITED, None, Some(EDITED));
    let entry = store.decline_purge(&uuid(1), &Supplied::Value(payload)).unwrap();
    assert_eq!(entry.body, "back");
    assert_eq!(entry.created_at, time(WRITTEN));
    assert_eq!(entry.updated_at, time(EDITED));
    assert!(entry.deleted_at.is_none());

    let visible = store.list_entries();
    assert_eq!(visible[0].body, "back");
    assert_eq!(visible[0].created_at, time(WRITTEN));
}

#[test]
fn sync_rejects_a_bad_note() {
    let (mut store, mut clock) = (Store::new(), Clock::new());
    let id = uuid(1);
    let note = |id: Option<&str>, body: &str, created_at: &str| {
        let mut fields = vec![];
        if let Some(id) = id {
            fields.push(("id", text(id)));
        }
        fields.push(("body", text(body)));
        fields.push(("created_at", text(created_at)));
        fields.push(("updated_at", text(EDITED)));
        object(fields)
    };
    let cases = [
        (note(None, "hello", WRITTEN), "id must be a uuid"),
        (note(Some("7"), "hello", WRITTEN), "id must be a uuid"),
        (note(Some("AAAAAAAA-BBBB-4CCC-8DDD-EEEEEEEEEEEE"), "hello", WRITTEN), "id must be a uuid"),
        (note(Some(&id), "   ", WRITTEN), "body must not be empty"),
        (note(Some(&id), "hello", "yesterday"), "bad time"),
    ];
    for (entry, error) in cases {
        let err = store.sync_entries(&request(vec![entry], vec![]), clock.tick()).unwrap_err();
        assert_eq!(err.status(), 400);
        assert_eq!(err.message(), error);
    }
    assert!(store.list_entries().is_empty());
}

#[test]
fn missing_purge_is_not_found() {
    let mut store = Store::new();
    let err = store.accept_purge(&uuid(1)).unwrap_err();
    assert_eq!(err.status(), 404);
    assert_eq!(err.message(), "not found");
    let err = store.decline_purge(&uuid(1), &Supplied::Nothing).unwrap_err();
    assert_eq!(err.status(), 404);
    assert_eq!(err.message(), "not found");
}

#[test]
fn bad_purges_are_refused() {
    let (mut store, mut clock) = (Store::new(), Clock::new());
    let bad_id = object(vec![("id", text("nope")), ("purged_at", text(PURGED))]);
    let err = store.sync_entries(&request(vec![], vec![bad_id]), clock.tick()).unwrap_err();
    assert_eq!(err, ApiError::BadId);
    let bad_time = object(vec![("id", text(&uuid(1))), ("purged_at", text("soon"))]);
    let err = store.sync_entries(&request(vec![], vec![bad_time]), clock.tick()).unwrap_err();
    assert_eq!(err, ApiError::BadTime);
    let err = store.sync_entries(&JsonValue::Array(vec![]), clock.tick()).unwrap_err();
    assert_eq!(err, ApiError::BadTime);
    let err = store
        .sync_entries(&object(vec![("entries", text("x"))]), clock.tick())
        .unwrap_err();
    assert_eq!(err, ApiError::BadTime);
    assert_eq!(store.purge_count(), 0);
}

#[test]
fn second_purge_keeps_the_first_time() {
    let (mut store, mut clock) = (Store::new(), Clock::new());
    agree(&mut store, &mut clock, 1, "note");
    sync(&mut store, &mut clock, vec![], vec![purge(1, PURGED)]);
    sync(&mut store, &mut clock, vec![], vec![purge(1, PURGED_AGAIN)]);
    let pending = store.list_pending_purges();
    assert_eq!(pending.len(), 1);
    assert_eq!(pending[0].purged_at, time(PURGED));
}

#[test]
fn soft_deletes_on_either_side_are_stamped() {
    let (mut store, mut clock) = (Store::new(), Clock::new());
    let synced = sync(&mut store, &mut clock, vec![phone_note(1, "phone gone", EDITED, Some(EDITED), None)], vec![]);
    let entry = only_entry(&synced);
    assert_eq!(entry.deleted_at, Some(time(EDITED)));
    assert_stamped(&entry);

    store.create_entry(&uuid(2), "pc gone", clock.tick()).unwrap();
    store.delete_entry(&uuid(2), clock.tick()).unwrap();
    let synced = send_back(&mut store, &mut clock, vec![entry], vec![]);
    let entry = only_entry(&synced);
    assert_eq!(entry.id, uuid(2));
    assert!(entry.deleted_at.is_some());
    assert_stamped(&entry);
}

#[test]
fn decline_of_a_missing_row_checks_the_copy() {
    let (mut store, mut clock) = (Store::new(), Clock::new());
    agree(&mut store, &mut clock, 1, "gone");
    store.delete_entry(&uuid(1), clock.tick()).unwrap();
    store.purge_entry(&uuid(1), clock.tick()).unwrap();
    assert_eq!(store.decline_purge(&uuid(1), &Supplied::Nothing).unwrap_err(), ApiError::BadId);
    assert_eq!(store.decline_purge(&uuid(1), &Supplied::Unreadable).unwrap_err(), ApiError::BadTime);
    let other = phone_note(2, "back", EDITED, None, None);
    assert_eq!(store.decline_purge(&uuid(1), &Supplied::Value(other)).unwrap_err(), ApiError::BadId);
    let blank = phone_note(1, " ", EDITED, None, None);
    assert_eq!(store.decline_purge(&uuid(1), &Supplied::Value(blank)).unwrap_err(), ApiError::EmptyBody);
    assert_eq!(store.purge_count(), 1);
    assert_eq!(store.row_count(), 0);
}

#[test]
fn later_copy_of_a_note_in_one_request_wins() {
    let (mut store, mut clock) = (Store::new(), Clock::new());
    let synced = sync(
        &mut store,
        &mut clock,
        vec![phone_note(1, "first", EDITED, None, None), phone_note(2, "other", EDITED, None, None), phone_note(1, "second", EDITED, None, None)],
        vec![],
    );
    assert_eq!(synced.entries.len(), 2);
    assert_eq!(synced.entries[0].id, uuid(1));
    assert_eq!(synced.entries[0].body, "second");
    assert_eq!(synced.entries[1].id, uuid(2));
}

#[test]
fn pending_purges_are_oldest_first() {
    let (mut store, mut clock) = (Store::new(), Clock::new());
    let synced = sync(
        &mut store,
        &mut clock,
        vec![phone_note(1, "a", EDITED, None, None), phone_note(2, "b", EDITED, None, None)],
        vec![],
    );
    assert_eq!(synced.entries.len(), 2);
    sync(&mut store, &mut clock, vec![], vec![purge(1, PURGED_AGAIN), purge(2, PURGED)]);
    let pending = store.list_pending_purges();
    assert_eq!(pending.len(), 2);
    assert_eq!(pending[0].id, uuid(2));
    assert_eq!(pending[1].id, uuid(1));
}

#[test]
fn second_sync_of_the_sent_copies_answers_nothing() {
    let (mut store, mut clock) = (Store::new(), Clock::new());
    store.create_entry(&uuid(1), "one", clock.tick()).unwrap();
    store.create_entry(&uuid(2), "two", clock.tick()).unwrap();
    store.delete_entry(&uuid(2), clock.tick()).unwrap();
    let first = sync(&mut store, &mut clock, vec![], vec![]);
    assert_eq!(first.entries.len(), 2);
    let sent: Vec<SyncEntry> = first.entries.iter().map(|e| e.copy()).collect();
    let second = send_back(&mut store, &mut clock, sent, vec![]);
    assert!(second.entries.is_empty());
    assert!(second.purges.is_empty());
    assert_eq!(store.list_entries()[0].updated_at, first.entries[0].updated_at);
}

#[test]
fn later_purge_with_the_note_asks_again() {
    let (mut store, mut clock) = (Store::new(), Clock::new());
    let agreed = agree(&mut store, &mut clock, 1, "kept");
    sync(&mut store, &mut clock, vec![], vec![purge(1, PURGED)]);
    store.decline_purge(&uuid(1), &Supplied::Nothing).unwrap();
    let later = sync(
        &mut store,
        &mut clock,
        vec![phone_note(1, "kept", EDITED, None, agreed.synced_at.map(|_| EDITED))],
        vec![purge(1, PURGED_AGAIN)],
    );
    assert!(later.entries.iter().all(|e| e.id != uuid(1)));
    assert_eq!(later.purges.len(), 1);
    assert_eq!(later.purges[0].purged_at, time(PURGED_AGAIN));
    let pending = store.list_pending_purges();
    assert_eq!(pending[0].purged_at, time(PURGED_AGAIN));
}

#[test]
fn later_purge_among_other_purges_asks_again() {
    let (mut store, mut clock) = (Store::new(), Clock::new());
    let first = sync(
        &mut store,
        &mut clock,
        vec![phone_note(1, "kept", EDITED, None, None), phone_note(2, "other", EDITED, None, None)],
        vec![],
    );
    assert_eq!(first.entries.len(), 2);
    sync(&mut store, &mut clock, vec![], vec![purge(1, PURGED)]);
    store.decline_purge(&uuid(1), &Supplied::Nothing).unwrap();
    let later = sync(
        &mut store,
        &mut clock,
        vec![phone_note(1, "kept", EDITED, None, Some(EDITED))],
        vec![purge(2, PURGED), purge(1, PURGED_AGAIN), purge(3, PURGED)],
    );
    assert!(later.entries.iter().all(|e| e.id != uuid(1)));
    assert_eq!(later.purges.len(), 1);
    assert_eq!(later.purges[0].id, uuid(1));
    assert_eq!(later.purges[0].purged_at, time(PURGED_AGAIN));
    let pending = store.list_pending_purges();
    let again = pending.iter().find(|p| p.id == uuid(1)).unwrap();
    assert_eq!(again.purged_at, time(PURGED_AGAIN));
    assert!(pending.iter().any(|p| p.id == uuid(2)));
    assert_eq!(store.list_entries().iter().filter(|e| e.id == uuid(1)).count(), 1);
}
