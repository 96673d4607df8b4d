//! Reading the notes and purges that a sync or a decline sends, from a JSON
//! value.
use vstd::prelude::*;

use crate::error::ApiError;
use crate::model::{find_id, lemma_find_id, purge_views, sync_views, purge_ids, sync_ids, PurgeView, SyncEntry, SyncPurge, SyncView};
use crate::text::{body_text, checked_id, id_text, trimmed_body};
use crate::time::{instant_of, parse_instant};

verus! {

/// A JSON value, with what the readers below look at: the kind of each
/// value, its text, its items and its named members.
#[derive(Debug)]
pub enum JsonValue {
    Null,
    Bool(bool),
    Number,
    Text(String),
    Array(Vec<JsonValue>),
    /// Members in order; a key that occurs twice is read at its first place.
    Object(Vec<(String, JsonValue)>),
}

/// The value behind an optional reference.
pub open spec fn owned(v: Option<&JsonValue>) -> Option<JsonValue> {
    match v {
        Some(x) => Some(*x),
        None => None,
    }
}

/// The member of an object that has the key.
pub open spec fn field_of(fields: Seq<(String, JsonValue)>, key: Seq<char>) -> Option<JsonValue>
    decreases fields.len(),
{
    if fields.len() == 0 {
        None
    } else if fields[0].0@ == key {
        Some(fields[0].1)
    } else {
        field_of(fields.drop_first(), key)
    }
}

/// The member of an object that has the key.
pub fn field<'a>(fields: &'a Vec<(String, JsonValue)>, key: &str) -> (r: Option<&'a JsonValue>)
    ensures
        owned(r) == field_of(fields@, key@),
{
    let k = key.to_owned();
    let mut i: usize = 0;
    assert(fields@.skip(0) == fields@);
    while i < fields.len()
        invariant
            i <= fields.len(),
            k@ == key@,
            field_of(fields@, key@) == field_of(fields@.skip(i as int), key@),
        decreases fields.len() - i,
    {
        assert(fields@.skip(i as int)[0] == fields@[i as int]);
        if fields[i].0 == k {
            return Some(&fields[i].1);
        }
        assert(fields@.skip(i as int).drop_first() == fields@.skip(i + 1));
        i += 1;
    }
    assert(fields@.skip(i as int).len() == 0);
    None
}

/// A time member: absent or `null` is no time (refused where one is
/// required), a string is read as RFC 3339, anything else is refused.
pub open spec fn time_field(v: Option<JsonValue>, required: bool) -> Result<Option<i64>, ApiError> {
    match v {
        None => if required {
            Err(ApiError::BadTime)
        } else {
            Ok(None)
        },
        Some(JsonValue::Null) => if required {
            Err(ApiError::BadTime)
        } else {
            Ok(None)
        },
        Some(JsonValue::Text(t)) => match instant_of(t@) {
            Some(m) => Ok(Some(m)),
            None => Err(ApiError::BadTime),
        },
        Some(_) => Err(ApiError::BadTime),
    }
}

/// A time member that must be there.
pub open spec fn required_time(v: Option<JsonValue>) -> Result<i64, ApiError> {
    match time_field(v, true) {
        Ok(Some(t)) => Ok(t),
        Ok(None) => Err(ApiError::BadTime),
        Err(e) => Err(e),
    }
}

/// An id member: a string that trims to a lowercase UUID.
pub open spec fn id_field(v: Option<JsonValue>) -> Result<Seq<char>, ApiError> {
    match v {
        Some(JsonValue::Text(t)) => id_text(t@),
        _ => Err(ApiError::BadId),
    }
}

/// A body member: a string that is not blank.
pub open spec fn body_field(v: Option<JsonValue>) -> Result<Seq<char>, ApiError> {
    match v {
        Some(JsonValue::Text(t)) => body_text(t@),
        _ => Err(ApiError::EmptyBody),
    }
}

/// The other text: a string member, or none.
pub open spec fn other_field(v: Option<JsonValue>) -> Option<Seq<char>> {
    match v {
        Some(JsonValue::Text(t)) => Some(t@),
        _ => None,
    }
}

/// A sync entry read from a JSON value, or the first thing wrong with it:
/// the shape, then the id, the body, `created_at`, `updated_at`,
/// `deleted_at` and `synced_at`.
pub open spec fn note_of(v: JsonValue) -> Result<SyncView, ApiError> {
    match v {
        JsonValue::Object(fields) => {
            let f = fields@;
            match id_field(field_of(f, "id"@)) {
                Err(e) => Err(e),
                Ok(id) => match body_field(field_of(f, "body"@)) {
                    Err(e) => Err(e),
                    Ok(body) => match required_time(field_of(f, "created_at"@)) {
                        Err(e) => Err(e),
                        Ok(created_at) => match required_time(field_of(f, "updated_at"@)) {
                            Err(e) => Err(e),
                            Ok(updated_at) => match time_field(field_of(f, "deleted_at"@), false) {
                                Err(e) => Err(e),
                                Ok(deleted_at) => match time_field(
                                    field_of(f, "synced_at"@),
                                    false,
                                ) {
                                    Err(e) => Err(e),
                                    Ok(synced_at) => Ok(
                                        SyncView {
                                            id,
                                            body,
                                            created_at,
                                            updated_at,
                                            deleted_at,
                                            synced_at,
                                            other_body: other_field(field_of(f, "other_body"@)),
                                        },
                                    ),
                                },
                            },
                        },
                    },
                },
            }
        },
        _ => Err(ApiError::BadTime),
    }
}

/// A purge read from a JSON value, or the first thing wrong with it.
pub open spec fn purge_of(v: JsonValue) -> Result<PurgeView, ApiError> {
    match v {
        JsonValue::Object(fields) => match id_field(field_of(fields@, "id"@)) {
            Err(e) => Err(e),
            Ok(id) => match required_time(field_of(fields@, "purged_at"@)) {
                Err(e) => Err(e),
                Ok(purged_at) => Ok(PurgeView { id, purged_at }),
            },
        },
        _ => Err(ApiError::BadTime),
    }
}

/// A note added to the notes read so far: a later copy of an id takes the
/// place of the earlier one.
pub open spec fn add_note(notes: Seq<SyncView>, n: SyncView) -> Seq<SyncView> {
    match find_id(sync_ids(notes), n.id) {
        Some(i) => notes.update(i, n),
        None => notes.push(n),
    }
}

/// A purge added to the purges read so far: only the first purge of an id
/// counts.
pub open spec fn add_purge(purges: Seq<PurgeView>, p: PurgeView) -> Seq<PurgeView> {
    match find_id(purge_ids(purges), p.id) {
        Some(_) => purges,
        None => purges.push(p),
    }
}

/// The notes of a sync, read in order, or the first note's error.
pub open spec fn notes_of(items: Seq<JsonValue>) -> Result<Seq<SyncView>, ApiError>
    decreases items.len(),
{
    if items.len() == 0 {
        Ok(Seq::empty())
    } else {
        match notes_of(items.drop_last()) {
            Err(e) => Err(e),
            Ok(ns) => match note_of(items.last()) {
                Err(e) => Err(e),
                Ok(n) => Ok(add_note(ns, n)),
            },
        }
    }
}

/// The purges of a sync, read in order, or the first purge's error.
pub open spec fn purges_of(items: Seq<JsonValue>) -> Result<Seq<PurgeView>, ApiError>
    decreases items.len(),
{
    if items.len() == 0 {
        Ok(Seq::empty())
    } else {
        match purges_of(items.drop_last()) {
            Err(e) => Err(e),
            Ok(ps) => match purge_of(items.last()) {
                Err(e) => Err(e),
                Ok(p) => Ok(add_purge(ps, p)),
            },
        }
    }
}

/// The notes and purges of a sync request, or why it is refused: the
/// `entries` member is read before the `purges` member, and either may be
/// absent.
pub open spec fn sync_request_of(v: JsonValue) -> Result<(Seq<SyncView>, Seq<PurgeView>), ApiError> {
    match v {
        JsonValue::Object(fields) => {
            let notes = match field_of(fields@, "entries"@) {
                None => Ok(Seq::<SyncView>::empty()),
                Some(JsonValue::Array(items)) => notes_of(items@),
                Some(_) => Err(ApiError::BadTime),
            };
            match notes {
                Err(e) => Err(e),
                Ok(ns) => match field_of(fields@, "purges"@) {
                    None => Ok((ns, Seq::<PurgeView>::empty())),
                    Some(JsonValue::Array(items)) => match purges_of(items@) {
                        Err(e) => Err(e),
                        Ok(ps) => Ok((ns, ps)),
                    },
                    Some(_) => Err(ApiError::BadTime),
                },
            }
        },
        _ => Err(ApiError::BadTime),
    }
}

/// Reads a time member.
pub fn parse_time(v: Option<&JsonValue>, required: bool) -> (r: Result<Option<i64>, ApiError>)
    ensures
        r == time_field(owned(v), required),
{
    match v {
        None => if required {
            Err(ApiError::BadTime)
        } else {
            Ok(None)
        },
        Some(JsonValue::Null) => if required {
            Err(ApiError::BadTime)
        } else {
            Ok(None)
        },
        Some(JsonValue::Text(text)) => match parse_instant(text.as_str()) {
            Some(m) => Ok(Some(m)),
            None => Err(ApiError::BadTime),
        },
        Some(_) => Err(ApiError::BadTime),
    }
}

/// Reads a time member that must be there.
fn parse_required_time(v: Option<&JsonValue>) -> (r: Result<i64, ApiError>)
    ensures
        r == required_time(owned(v)),
{
    match parse_time(v, true) {
        Ok(Some(t)) => Ok(t),
        Ok(None) => Err(ApiError::BadTime),
        Err(e) => Err(e),
    }
}

/// Reads an id member.
fn parse_id(v: Option<&JsonValue>) -> (r: Result<String, ApiError>)
    ensures
        match r {
            Ok(t) => id_field(owned(v)) == Ok::<Seq<char>, ApiError>(t@),
            Err(e) => id_field(owned(v)) == Err::<Seq<char>, ApiError>(e),
        },
{
    match v {
        Some(JsonValue::Text(t)) => checked_id(t.as_str()),
        _ => Err(ApiError::BadId),
    }
}

/// Reads a sync entry from a JSON value.
pub fn parse_note(value: &JsonValue) -> (r: Result<SyncEntry, ApiError>)
    ensures
        match r {
            Ok(n) => note_of(*value) == Ok::<SyncView, ApiError>(n@),
            Err(e) => note_of(*value) == Err::<SyncView, ApiError>(e),
        },
{
    let fields = match value {
        JsonValue::Object(fields) => fields,
        _ => {
            return Err(ApiError::BadTime);
        },
    };
    let id = parse_id(field(fields, "id"))?;
    let body = match field(fields, "body") {
        Some(JsonValue::Text(b)) => trimmed_body(b.as_str())?,
        _ => {
            return Err(ApiError::EmptyBody);
        },
    };
    let created_at = parse_required_time(field(fields, "created_at"))?;
    let updated_at = parse_required_time(field(fields, "updated_at"))?;
    let deleted_at = parse_time(field(fields, "deleted_at"), false)?;
    let synced_at = parse_time(field(fields, "synced_at"), false)?;
    let other_body = match field(fields, "other_body") {
        Some(JsonValue::Text(b)) => Some(b.clone()),
        _ => None,
    };
    Ok(SyncEntry { id, body, created_at, updated_at, deleted_at, synced_at, other_body })
}

/// Reads a purge from a JSON value.
pub fn parse_purge(value: &JsonValue) -> (r: Result<SyncPurge, ApiError>)
    ensures
        match r {
            Ok(p) => purge_of(*value) == Ok::<PurgeView, ApiError>(p@),
            Err(e) => purge_of(*value) == Err::<PurgeView, ApiError>(e),
        },
{
    let fields = match value {
        JsonValue::Object(fields) => fields,
        _ => {
            return Err(ApiError::BadTime);
        },
    };
    let id = parse_id(field(fields, "id"))?;
    let purged_at = parse_required_time(field(fields, "purged_at"))?;
    Ok(SyncPurge { id, purged_at })
}

/// Once a prefix of the notes is refused, so is every longer prefix, with
/// the same error.
proof fn lemma_notes_error_stays(items: Seq<JsonValue>, j: int, k: int)
    requires
        0 <= j <= k <= items.len(),
        notes_of(items.take(j)) is Err,
    ensures
        notes_of(items.take(k)) == notes_of(items.take(j)),
    decreases k - j,
{
    if k > j {
        lemma_notes_error_stays(items, j, k - 1);
        assert(items.take(k).drop_last() == items.take(k - 1));
    }
}

/// Once a prefix of the purges is refused, so is every longer prefix, with
/// the same error.
proof fn lemma_purges_error_stays(items: Seq<JsonValue>, j: int, k: int)
    requires
        0 <= j <= k <= items.len(),
        purges_of(items.take(j)) is Err,
    ensures
        purges_of(items.take(k)) == purges_of(items.take(j)),
    decreases k - j,
{
    if k > j {
        lemma_purges_error_stays(items, j, k - 1);
        assert(items.take(k).drop_last() == items.take(k - 1));
    }
}

/// Where a note with this id stands among the notes.
fn find_note(notes: &Vec<SyncEntry>, id: &String) -> (r: Option<usize>)
    ensures
        match r {
            Some(i) => i < notes.len() && notes@[i as int]@.id == id@,
            None => forall|k: int| 0 <= k < notes.len() ==> (#[trigger] notes@[k])@.id != id@,
        },
{
    let mut i: usize = 0;
    while i < notes.len()
        invariant
            i <= notes.len(),
            forall|k: int| 0 <= k < i ==> (#[trigger] notes@[k])@.id != id@,
        decreases notes.len() - i,
    {
        if notes[i].id == *id {
            return Some(i);
        }
        i += 1;
    }
    None
}

/// Where a purge with this id stands among the purges.
fn find_purge(purges: &Vec<SyncPurge>, id: &String) -> (r: Option<usize>)
    ensures
        match r {
            Some(i) => i < purges.len() && purges@[i as int]@.id == id@,
            None => forall|k: int| 0 <= k < purges.len() ==> (#[trigger] purges@[k])@.id != id@,
        },
{
    let mut i: usize = 0;
    while i < purges.len()
        invariant
            i <= purges.len(),
            forall|k: int| 0 <= k < i ==> (#[trigger] purges@[k])@.id != id@,
        decreases purges.len() - i,
    {
        if purges[i].id == *id {
            return Some(i);
        }
        i += 1;
    }
    None
}

/// Reads the notes of a sync; a later copy of an id takes the place of the
/// earlier one.
fn parse_notes(items: &Vec<JsonValue>) -> (r: Result<Vec<SyncEntry>, ApiError>)
    ensures
        match r {
            Ok(ns) => notes_of(items@) == Ok::<Seq<SyncView>, ApiError>(sync_views(ns@))
                && sync_ids(sync_views(ns@)).no_duplicates(),
            Err(e) => notes_of(items@) == Err::<Seq<SyncView>, ApiError>(e),
        },
{
    let mut notes: Vec<SyncEntry> = Vec::new();
    let mut i: usize = 0;
    assert(items@.take(0).len() == 0);
    assert(sync_views(notes@) == Seq::<SyncView>::empty());
    while i < items.len()
        invariant
            i <= items.len(),
            notes_of(items@.take(i as int)) == Ok::<Seq<SyncView>, ApiError>(sync_views(notes@)),
            sync_ids(sync_views(notes@)).no_duplicates(),
        decreases items.len() - i,
    {
        let ghost before = sync_views(notes@);
        assert(items@.take(i + 1).drop_last() == items@.take(i as int));
        assert(items@.take(i + 1).last() == items@[i as int]);
        let note = match parse_note(&items[i]) {
            Ok(n) => n,
            Err(e) => {
                proof {
                    lemma_notes_error_stays(items@, i + 1, items.len() as int);
                    assert(items@.take(items.len() as int) == items@);
                }
                return Err(e);
            },
        };
        match find_note(&notes, &note.id) {
            Some(j) => {
                proof {
                    lemma_find_id(sync_ids(before), note@.id, j as int);
                }
                notes[j] = note;
                assert(sync_views(notes@) == before.update(j as int, note@));
                assert(sync_ids(sync_views(notes@)) == sync_ids(before));
            },
            None => {
                assert(!(exists|k: int|
                    0 <= k < sync_ids(before).len() && sync_ids(before)[k] == note@.id));
                notes.push(note);
                assert(sync_views(notes@) == before.push(note@));
                assert(sync_ids(sync_views(notes@)) == sync_ids(before).push(note@.id));
            },
        }
        i += 1;
    }
    assert(items@.take(items.len() as int) == items@);
    Ok(notes)
}

/// Reads the purges of a sync; only the first purge of an id counts.
fn parse_purges(items: &Vec<JsonValue>) -> (r: Result<Vec<SyncPurge>, ApiError>)
    ensures
        match r {
            Ok(ps) => purges_of(items@) == Ok::<Seq<PurgeView>, ApiError>(purge_views(ps@))
                && purge_ids(purge_views(ps@)).no_duplicates(),
            Err(e) => purges_of(items@) == Err::<Seq<PurgeView>, ApiError>(e),
        },
{
    let mut purges: Vec<SyncPurge> = Vec::new();
    let mut i: usize = 0;
    assert(items@.take(0).len() == 0);
    assert(purge_views(purges@) == Seq::<PurgeView>::empty());
    while i < items.len()
        invariant
            i <= items.len(),
            purges_of(items@.take(i as int)) == Ok::<Seq<PurgeView>, ApiError>(
                purge_views(purges@),
            ),
            purge_ids(purge_views(purges@)).no_duplicates(),
        decreases items.len() - i,
    {
        let ghost before = purge_views(purges@);
        assert(items@.take(i + 1).drop_last() == items@.take(i as int));
        assert(items@.take(i + 1).last() == items@[i as int]);
        let purge = match parse_purge(&items[i]) {
            Ok(p) => p,
            Err(e) => {
                proof {
                    lemma_purges_error_stays(items@, i + 1, items.len() as int);
                    assert(items@.take(items.len() as int) == items@);
                }
                return Err(e);
            },
        };
        match find_purge(&purges, &purge.id) {
            Some(j) => {
                proof {
                    lemma_find_id(purge_ids(before), purge@.id, j as int);
                }
            },
            None => {
                assert(!(exists|k: int|
                    0 <= k < purge_ids(before).len() && purge_ids(before)[k] == purge@.id));
                purges.push(purge);
                assert(purge_views(purges@) == before.push(purge@));
                assert(purge_ids(purge_views(purges@)) == purge_ids(before).push(purge@.id));
            },
        }
        i += 1;
    }
    assert(items@.take(items.len() as int) == items@);
    Ok(purges)
}

/// Reads the notes and purges of a sync request.
pub fn parse_sync(value: &JsonValue) -> (r: Result<(Vec<SyncEntry>, Vec<SyncPurge>), ApiError>)
    ensures
        match r {
            Ok((ns, ps)) => sync_request_of(*value) == Ok::<
                (Seq<SyncView>, Seq<PurgeView>),
                ApiError,
            >((sync_views(ns@), purge_views(ps@))) && sync_ids(sync_views(ns@)).no_duplicates()
                && purge_ids(purge_views(ps@)).no_duplicates(),
            Err(e) => sync_request_of(*value) == Err::<(Seq<SyncView>, Seq<PurgeView>), ApiError>(
                e,
            ),
        },
{
    let fields = match value {
        JsonValue::Object(fields) => fields,
        _ => {
            return Err(ApiError::BadTime);
        },
    };
    let notes = match field(fields, "entries") {
        None => Vec::new(),
        Some(JsonValue::Array(items)) => parse_notes(items)?,
        Some(_) => {
            return Err(ApiError::BadTime);
        },
    };
    let purges = match field(fields, "purges") {
        None => Vec::new(),
        Some(JsonValue::Array(items)) => parse_purges(items)?,
        Some(_) => {
            return Err(ApiError::BadTime);
        },
    };
    proof {
        assert(sync_views(Seq::<SyncEntry>::empty()) == Seq::<SyncView>::empty());
        assert(purge_views(Seq::<SyncPurge>::empty()) == Seq::<PurgeView>::empty());
    }
    Ok((notes, purges))
}

} // verus!
