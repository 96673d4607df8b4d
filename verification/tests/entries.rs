use session_log::error::ApiError;
use session_log::model::Row;
use session_log::store::Store;

fn uuid(n: u32) -> String {
    format!("00000000-0000-4000-8000-{n:012x}")
}

const NOW: i64 = 1_750_000_000_000_000;

#[test]
fn empty_body_is_rejected() {
    let mut store = Store::new();
    let err = store.create_entry(&uuid(1), "   ", NOW).unwrap_err();
    assert_eq!(err.status(), 400);
    assert_eq!(err.message(), "body must not be empty");
}

#[test]
fn id_must_be_a_uuid() {
    let mut store = Store::new();
    for id in ["", "7", "AAAAAAAA-BBBB-4CCC-8DDD-EEEEEEEEEEEE"] {
        let err = store.create_entry(id, "hello", NOW).unwrap_err();
        assert_eq!(err.status(), 400);
        assert_eq!(err.message(), "id must be a uuid");
    }
}

#[test]
fn duplicate_id_is_rejected() {
    let mut store = Store::new();
    assert!(store.create_entry(&uuid(1), "hello", NOW).is_ok());
    let err = store.create_entry(&uuid(1), "hello", NOW + 1).unwrap_err();
    assert_eq!(err.status(), 409);
    assert_eq!(err.message(), "id already used");
}

#[test]
fn create_then_list() {
    let mut store = Store::new();
    let created = store.create_entry(&uuid(1), "hello", NOW).unwrap();
    assert_eq!(created.id, uuid(1));
    assert_eq!(created.body, "hello");
    assert!(created.deleted_at.is_none());

    let list = store.list_entries();
    assert_eq!(list[0].id, uuid(1));
    assert_eq!(list[0].body, "hello");
}

#[test]
fn legacy_text_id_still_edits() {
    let row = Row {
        id: "7".to_string(),
        body: "old".to_string(),
        created_at: NOW,
        updated_at: NOW,
        deleted_at: None,
        synced_at: None,
        other_body: None,
        declined_purged_at: None,
    };
    let mut store = Store::from_rows(vec![row], vec![]).unwrap();
    let before = store.list_entries();
    let created_at = before[0].created_at;

    let updated = store.update_entry("7", r"new", NOW + 10).unwrap();
    assert_eq!(updated.id, "7");
    assert_eq!(updated.body, "new");
    assert_eq!(updated.created_at, created_at);

    let list = store.list_entries();
    assert_eq!(list[0].id, "7");
    assert_eq!(list[0].body, "new");
}

#[test]
fn updated_at_moves_on_edit_delete_and_restore() {
    let mut store = Store::new();
    let created = store.create_entry(&uuid(1), "old", NOW).unwrap();
    let id = created.id.clone();

    let edited = store.update_entry(&id, "new", NOW + 20_000).unwrap();
    assert_eq!(edited.created_at, created.created_at);
    assert!(edited.updated_at > created.updated_at);

    assert!(store.delete_entry(&id, NOW + 40_000).is_ok());
    let deleted = store.list_deleted();
    let row = &deleted[0];
    assert!(row.deleted_at.is_some());
    assert!(row.updated_at > edited.updated_at);

    let restored = store.restore_entry(&id, NOW + 60_000).unwrap();
    assert!(restored.deleted_at.is_none());
    assert_eq!(restored.created_at, created.created_at);
    assert!(restored.updated_at > row.updated_at);
}

#[test]
fn visible_list_caps_at_50() {
    let mut store = Store::new();
    for n in 1..=51 {
        assert!(store.create_entry(&uuid(n), "note", NOW + n as i64).is_ok());
    }
    let list = store.list_entries();
    assert_eq!(list.len(), 50);
}

#[test]
fn update_entry() {
    let mut store = Store::new();
    let created = store.create_entry(&uuid(1), "old", NOW).unwrap();
    let updated = store.update_entry(&created.id, "new", NOW + 1).unwrap();
    assert_eq!(updated.body, "new");
    assert_eq!(updated.created_at, created.created_at);
}

#[test]
fn delete_restore_purge() {
    let mut store = Store::new();
    let created = store.create_entry(&uuid(1), "temp", NOW).unwrap();
    let id = created.id.clone();

    assert!(store.delete_entry(&id, NOW + 1).is_ok());
    assert_eq!(store.list_entries().len(), 0);
    assert_eq!(store.list_deleted()[0].id, id);

    assert!(store.restore_entry(&id, NOW + 2).is_ok());
    assert!(store.delete_entry(&id, NOW + 3).is_ok());
    assert!(store.purge_entry(&id, NOW + 4).is_ok());
    assert_eq!(store.list_deleted().len(), 0);
}

#[test]
fn purge_visible_is_not_found() {
    let mut store = Store::new();
    let created = store.create_entry(&uuid(1), "keep", NOW).unwrap();
    let err = store.purge_entry(&created.id, NOW + 1).unwrap_err();
    assert_eq!(err.status(), 404);
    assert_eq!(err.message(), "not found");
}

#[test]
fn create_trims_id_and_body() {
    let mut store = Store::new();
    let created = store
        .create_entry(&format!("  {}\n", uuid(3)), "\u{3000}\t hello there \u{a0}", NOW)
        .unwrap();
    assert_eq!(created.id, uuid(3));
    assert_eq!(created.body, "hello there");
    assert_eq!(created.created_at, NOW);
    assert_eq!(created.updated_at, NOW);
}

#[test]
fn edit_of_a_deleted_note_is_not_found() {
    let mut store = Store::new();
    store.create_entry(&uuid(1), "x", NOW).unwrap();
    store.delete_entry(&uuid(1), NOW + 1).unwrap();
    assert_eq!(store.update_entry(&uuid(1), "y", NOW + 2).unwrap_err(), ApiError::NotFound);
    assert_eq!(store.update_entry(&uuid(2), "y", NOW + 2).unwrap_err(), ApiError::NotFound);
    assert_eq!(store.update_entry(&uuid(1), " ", NOW + 2).unwrap_err(), ApiError::EmptyBody);
}

#[test]
fn delete_twice_and_restore_visible_are_not_found() {
    let mut store = Store::new();
    store.create_entry(&uuid(1), "x", NOW).unwrap();
    assert_eq!(store.restore_entry(&uuid(1), NOW + 1).unwrap_err(), ApiError::NotFound);
    store.delete_entry(&uuid(1), NOW + 1).unwrap();
    assert_eq!(store.delete_entry(&uuid(1), NOW + 2).unwrap_err(), ApiError::NotFound);
    assert_eq!(store.delete_entry(&uuid(9), NOW + 2).unwrap_err(), ApiError::NotFound);
}

#[test]
fn log_is_newest_first_then_by_id() {
    let mut store = Store::new();
    store.create_entry(&uuid(1), "a", NOW).unwrap();
    store.create_entry(&uuid(3), "b", NOW + 5).unwrap();
    store.create_entry(&uuid(2), "c", NOW + 5).unwrap();
    let list = store.list_entries();
    let ids: Vec<String> = list.iter().map(|e| e.id.clone()).collect();
    assert_eq!(ids, vec![uuid(3), uuid(2), uuid(1)]);
}

#[test]
fn deleted_list_is_by_deleted_at() {
    let mut store = Store::new();
    store.create_entry(&uuid(1), "a", NOW).unwrap();
    store.create_entry(&uuid(2), "b", NOW + 1).unwrap();
    store.delete_entry(&uuid(2), NOW + 2).unwrap();
    store.delete_entry(&uuid(1), NOW + 3).unwrap();
    let list = store.list_deleted();
    assert_eq!(list.len(), 2);
    assert_eq!(list[0].id, uuid(1));
    assert_eq!(list[0].deleted_at, Some(NOW + 3));
    assert_eq!(list[1].id, uuid(2));
}

#[test]
fn unsynced_purge_leaves_no_purge_and_the_id_is_free_again() {
    let mut store = Store::new();
    store.create_entry(&uuid(1), "a", NOW).unwrap();
    store.delete_entry(&uuid(1), NOW + 1).unwrap();
    store.purge_entry(&uuid(1), NOW + 2).unwrap();
    assert_eq!(store.purge_count(), 0);
    assert_eq!(store.row_count(), 0);
    assert!(store.create_entry(&uuid(1), "again", NOW + 3).is_ok());
}

#[test]
fn new_note_heads_the_log() {
    let mut store = Store::new();
    for n in 1..=60 {
        store.create_entry(&uuid(n), "old", NOW + n as i64).unwrap();
    }
    store.create_entry(&uuid(100), "newest", NOW + 1000).unwrap();
    let list = store.list_entries();
    assert_eq!(list.len(), 50);
    assert_eq!(list[0].id, uuid(100));
    assert_eq!(list[1].id, uuid(60));
}

#[test]
fn delete_then_restore_gives_the_note_back() {
    let mut store = Store::new();
    let created = store.create_entry(&uuid(1), "keep me", NOW).unwrap();
    store.delete_entry(&uuid(1), NOW + 1).unwrap();
    assert!(store.list_entries().is_empty());
    let back = store.restore_entry(&uuid(1), NOW + 2).unwrap();
    assert_eq!(back.body, created.body);
    assert_eq!(back.created_at, created.created_at);
    assert_eq!(back.updated_at, NOW + 2);
    assert_eq!(store.list_entries()[0].id, uuid(1));
}

#[test]
fn refused_writes_change_nothing() {
    let mut store = Store::new();
    store.create_entry(&uuid(1), "a", NOW).unwrap();
    assert!(store.create_entry("bad", "x", NOW + 1).is_err());
    assert!(store.update_entry(&uuid(1), "", NOW + 1).is_err());
    assert!(store.purge_entry(&uuid(1), NOW + 1).is_err());
    let list = store.list_entries();
    assert_eq!(list.len(), 1);
    assert_eq!(list[0].body, "a");
    assert_eq!(list[0].updated_at, NOW);
}

#[test]
fn from_rows_refuses_repeated_ids() {
    let row = |id: &str| Row {
        id: id.to_string(),
        body: "b".to_string(),
        created_at: NOW,
        updated_at: NOW,
        deleted_at: None,
        synced_at: None,
        other_body: None,
        declined_purged_at: None,
    };
    assert!(Store::from_rows(vec![row("a"), row("a")], vec![]).is_none());
    assert!(Store::from_rows(vec![row("a"), row("b")], vec![]).is_some());
}

#[test]
fn purged_id_cannot_be_created_again() {
    let mut store = Store::new();
    let purge = session_log::model::SyncPurge { id: uuid(1), purged_at: NOW };
    let mut store2 = Store::from_rows(vec![], vec![purge]).unwrap();
    assert_eq!(store2.create_entry(&uuid(1), "again", NOW + 1).unwrap_err(), ApiError::DuplicateId);
    assert_eq!(store2.row_count(), 0);
    assert!(store.create_entry(&uuid(1), "fresh", NOW).is_ok());
}
