//! What holds of the log across its routes.
use vstd::prelude::*;

use crate::error::ApiError;
use crate::model::{purge_ids, row_ids, sync_ids, PurgeView, RowView, SyncView};
use crate::store::{
    create_spec, delete_spec, is_listing, list_candidates, list_key, purge_spec, restore_spec,
    update_spec, StoreView,
};
use crate::order::{lemma_first_by_takes_all, text_less};
use crate::sync::{
    accept_spec, is_pending_list, after_notes, after_purges, decline_spec, from_row, merge_spec, note_step,
    pc_only, purge_step, stamped, sync_spec, Supplied, SyncState,
};
use crate::text::id_text;

verus! {

/// `t` keeps every note of `s` in its place, under the same id and with the
/// same `created_at`, and every purge of `s` as it was.
pub open spec fn extends(s: StoreView, t: StoreView) -> bool {
    &&& t.rows.len() >= s.rows.len()
    &&& forall|i: int|
        0 <= i < s.rows.len() ==> (#[trigger] t.rows[i]).id == s.rows[i].id && t.rows[i].created_at
            == s.rows[i].created_at
    &&& t.purges.len() >= s.purges.len()
    &&& forall|j: int| 0 <= j < s.purges.len() ==> #[trigger] t.purges[j] == s.purges[j]
}

proof fn lemma_extends_transitive(a: StoreView, b: StoreView, c: StoreView)
    requires
        extends(a, b),
        extends(b, c),
    ensures
        extends(a, c),
{
    assert forall|i: int| 0 <= i < a.rows.len() implies (#[trigger] c.rows[i]).id == a.rows[i].id
        && c.rows[i].created_at == a.rows[i].created_at by {
        assert(b.rows[i].id == a.rows[i].id);
    }
    assert forall|j: int| 0 <= j < a.purges.len() implies #[trigger] c.purges[j] == a.purges[j] by {
        assert(b.purges[j] == a.purges[j]);
    }
}

proof fn lemma_merge_keeps_identity(n: SyncView, r: RowView, now: i64)
    ensures
        merge_spec(n, r, now).0.id == r.id,
        merge_spec(n, r, now).0.created_at == r.created_at,
{
}

proof fn lemma_purge_step_extends(st: SyncState, p: PurgeView)
    ensures
        extends(st.store, purge_step(st, p).store),
{
}

proof fn lemma_note_step_extends(st: SyncState, n: SyncView, now: i64)
    ensures
        extends(st.store, note_step(st, n, now).store),
        note_step(st, n, now).store.purges == st.store.purges,
        note_step(st, n, now).echoed == st.echoed,
        note_step(st, n, now).entries.len() >= st.entries.len(),
        forall|i: int|
            0 <= i < st.entries.len() ==> #[trigger] note_step(st, n, now).entries[i]
                == st.entries[i],
{
    if !st.echoed.contains(n.id) && st.store.purge_index(n.id) is None {
        match st.store.row_index(n.id) {
            Some(k) => {
                lemma_merge_keeps_identity(n, st.store.rows[k], now);
            },
            None => {},
        }
    }
}

proof fn lemma_after_purges_extends(s: StoreView, ps: Seq<PurgeView>)
    ensures
        extends(s, after_purges(s, ps).store),
    decreases ps.len(),
{
    if ps.len() > 0 {
        lemma_after_purges_extends(s, ps.drop_last());
        lemma_purge_step_extends(after_purges(s, ps.drop_last()), ps.last());
        lemma_extends_transitive(
            s,
            after_purges(s, ps.drop_last()).store,
            after_purges(s, ps).store,
        );
    }
}

proof fn lemma_after_notes_extends(st: SyncState, ns: Seq<SyncView>, now: i64)
    ensures
        extends(st.store, after_notes(st, ns, now).store),
        after_notes(st, ns, now).store.purges == st.store.purges,
        after_notes(st, ns, now).echoed == st.echoed,
        after_notes(st, ns, now).entries.len() >= st.entries.len(),
        forall|i: int|
            0 <= i < st.entries.len() ==> #[trigger] after_notes(st, ns, now).entries[i]
                == st.entries[i],
    decreases ns.len(),
{
    if ns.len() > 0 {
        let mid = after_notes(st, ns.drop_last(), now);
        lemma_after_notes_extends(st, ns.drop_last(), now);
        lemma_note_step_extends(mid, ns.last(), now);
        lemma_extends_transitive(st.store, mid.store, after_notes(st, ns, now).store);
        assert forall|i: int| 0 <= i < st.entries.len() implies #[trigger] after_notes(
            st,
            ns,
            now,
        ).entries[i] == st.entries[i] by {
            assert(mid.entries[i] == st.entries[i]);
        }
    }
}

/// A sync removes no note and no purge: every note keeps its id and its
/// `created_at`, and every purge stays as it was.
pub proof fn lemma_sync_keeps_notes_and_purges(
    s: StoreView,
    ns: Seq<SyncView>,
    ps: Seq<PurgeView>,
    now: i64,
)
    ensures
        extends(s, sync_spec(s, ns, ps, now).0),
{
    let st = after_notes(after_purges(s, ps), ns, now);
    lemma_after_purges_extends(s, ps);
    lemma_after_notes_extends(after_purges(s, ps), ns, now);
    lemma_extends_transitive(s, after_purges(s, ps).store, st.store);
    let t = st.store;
    let only = |r: RowView| pc_only(t, ns, ps, r);
    let rows = t.rows.map_values(|r: RowView| if only(r) { stamped(r, now) } else { r });
    assert(extends(t, t.with_rows(rows)));
    lemma_extends_transitive(s, t, t.with_rows(rows));
}

/// Where an id has no note and is stored as a purge, and the sync state
/// still says so.
pub open spec fn blocked(st: SyncState, id: Seq<char>) -> bool {
    st.store.row_index(id) is None && st.store.purge_index(id) is Some
}

proof fn lemma_blocked_purge_step(st: SyncState, p: PurgeView, id: Seq<char>)
    requires
        blocked(st, id),
    ensures
        blocked(purge_step(st, p), id),
{
    let s = st.store;
    let t = purge_step(st, p).store;
    assert(forall|i: int| 0 <= i < s.rows.len() ==> #[trigger] row_ids(t.rows)[i] == row_ids(s.rows)[i]);
    assert(row_ids(t.rows).len() == row_ids(s.rows).len());
    let j = s.purge_index(id)->0;
    assert(purge_ids(t.purges)[j] == id);
}

proof fn lemma_blocked_note_step(st: SyncState, n: SyncView, now: i64, id: Seq<char>)
    requires
        blocked(st, id),
    ensures
        blocked(note_step(st, n, now), id),
        n.id == id && !st.echoed.contains(id) ==> note_step(st, n, now).purges == st.purges.push(
            st.store.purges[st.store.purge_index(id)->0],
        ),
{
    let s = st.store;
    let t = note_step(st, n, now).store;
    if !st.echoed.contains(n.id) && s.purge_index(n.id) is None {
        assert(n.id != id);
        match s.row_index(n.id) {
            Some(k) => {
                lemma_merge_keeps_identity(n, s.rows[k], now);
                assert(row_ids(t.rows) == row_ids(s.rows));
            },
            None => {
                assert(row_ids(t.rows) == row_ids(s.rows).push(n.id));
            },
        }
    }
}

proof fn lemma_blocked_after_purges(s: StoreView, ps: Seq<PurgeView>, id: Seq<char>)
    requires
        s.row_index(id) is None,
        s.purge_index(id) is Some,
    ensures
        blocked(after_purges(s, ps), id),
    decreases ps.len(),
{
    if ps.len() > 0 {
        lemma_blocked_after_purges(s, ps.drop_last(), id);
        lemma_blocked_purge_step(after_purges(s, ps.drop_last()), ps.last(), id);
    }
}

proof fn lemma_blocked_after_notes(st: SyncState, ns: Seq<SyncView>, now: i64, id: Seq<char>)
    requires
        blocked(st, id),
    ensures
        blocked(after_notes(st, ns, now), id),
    decreases ns.len(),
{
    if ns.len() > 0 {
        lemma_blocked_after_notes(st, ns.drop_last(), now, id);
        lemma_blocked_note_step(after_notes(st, ns.drop_last(), now), ns.last(), now, id);
    }
}

/// While a purge is stored for an id the PC has no note of, a sync does not
/// write that note, whatever the phone sends.
pub proof fn lemma_purged_id_not_written(
    s: StoreView,
    ns: Seq<SyncView>,
    ps: Seq<PurgeView>,
    now: i64,
    id: Seq<char>,
)
    requires
        s.row_index(id) is None,
        s.purge_index(id) is Some,
    ensures
        sync_spec(s, ns, ps, now).0.row_index(id) is None,
        sync_spec(s, ns, ps, now).0.purge_index(id) is Some,
{
    lemma_blocked_after_purges(s, ps, id);
    lemma_blocked_after_notes(after_purges(s, ps), ns, now, id);
    let st = after_notes(after_purges(s, ps), ns, now);
    let t = st.store;
    let only = |r: RowView| pc_only(t, ns, ps, r);
    let rows = t.rows.map_values(|r: RowView| if only(r) { stamped(r, now) } else { r });
    assert(row_ids(rows) == row_ids(t.rows));
}

/// Accept removes the note and keeps the purge, so a later sync does not
/// write the note again and asks the phone about the purge instead.
pub proof fn lemma_accept_blocks_the_note(s: StoreView, n: SyncView, now: i64)
    requires
        s.wf(),
        s.purge_index(n.id) is Some,
    ensures
        accept_spec(s, n.id).1 == Ok::<(), ApiError>(()),
        ({
            let a = accept_spec(s, n.id).0;
            let (t, entries, asked) = sync_spec(a, seq![n], Seq::empty(), now);
            &&& t.row_index(n.id) is None
            &&& asked == seq![a.purges[a.purge_index(n.id)->0]]
            &&& forall|i: int| 0 <= i < entries.len() ==> (#[trigger] entries[i]).id != n.id
        }),
{
    let a = accept_spec(s, n.id).0;
    assert(a.purges == s.purges);
    match s.row_index(n.id) {
        Some(k) => {
            assert(row_ids(a.rows) == row_ids(s.rows).remove(k));
            assert forall|i: int| 0 <= i < row_ids(a.rows).len() implies row_ids(a.rows)[i]
                != n.id by {
                if i < k {
                    assert(row_ids(a.rows)[i] == row_ids(s.rows)[i]);
                } else {
                    assert(row_ids(a.rows)[i] == row_ids(s.rows)[i + 1]);
                }
            }
        },
        None => {},
    }
    assert(a.row_index(n.id) is None);
    lemma_purged_id_not_written(a, seq![n], Seq::empty(), now, n.id);
    let base = after_purges(a, Seq::<PurgeView>::empty());
    assert(seq![n].drop_last() == Seq::<SyncView>::empty());
    assert(seq![n].last() == n);
    assert(after_notes(base, Seq::<SyncView>::empty(), now) == base);
    let st = after_notes(base, seq![n], now);
    assert(st == note_step(base, n, now));
    let t = st.store;
    let only = |r: RowView| pc_only(t, seq![n], Seq::empty(), r);
    assert forall|i: int| 0 <= i < t.rows.filter(only).len() implies #[trigger] t.rows.filter(
        only,
    )[i].id != n.id by {
        t.rows.lemma_filter_pred(only, i);
        assert(sync_ids(seq![n])[0] == n.id);
    }
}

/// A merge makes both copies agree, or keeps both texts: after it the
/// phone is told the stored body, deleted time, change time and sync time,
/// except where both sides changed the text differently; then each keeps
/// its own text and holds the other one beside it.
pub proof fn lemma_merge_converges(n: SyncView, r: RowView, now: i64)
    ensures
        ({
            let (kept, told) = merge_spec(n, r, now);
            match told {
                Some(e) => {
                    ||| {
                        &&& e.body == kept.body
                        &&& e.deleted_at == kept.deleted_at
                        &&& e.updated_at == kept.updated_at
                        &&& e.synced_at == kept.synced_at
                        &&& e.other_body is None
                        &&& kept.other_body is None
                    }
                    ||| {
                        &&& kept.body == r.body
                        &&& kept.other_body == Some(n.body)
                        &&& e.body == n.body
                        &&& e.other_body == Some(r.body)
                    }
                },
                None => kept == r,
            }
        }),
{
}

/// What a sync hands the phone is already agreed: when the phone sends it
/// back and the PC copy did not change, the note is left out of the answer
/// and the row stays as it is.
pub proof fn lemma_answer_is_agreed(n: SyncView, r: RowView, now: i64)
    requires
        r.synced_at == Some(r.updated_at),
        r.other_body is None,
        n.body == r.body,
        n.deleted_at == r.deleted_at,
        n.updated_at == r.updated_at,
        n.synced_at == r.synced_at,
        n.other_body is None,
    ensures
        merge_spec(n, r, now) == (r, Option::<SyncView>::None),
{
}

/// Only one side changed the note: the sync keeps that side's copy, and the
/// phone is told it with the PC's clock as both `updated_at` and
/// `synced_at`.
pub proof fn lemma_one_sided_change_is_kept(n: SyncView, r: RowView, now: i64)
    requires
        crate::time::newer(n.updated_at, n.synced_at) != crate::time::newer(
            r.updated_at,
            r.synced_at,
        ),
    ensures
        ({
            let (kept, told) = merge_spec(n, r, now);
            let winner_body = if crate::time::newer(n.updated_at, n.synced_at) {
                n.body
            } else {
                r.body
            };
            let winner_deleted_at = if crate::time::newer(n.updated_at, n.synced_at) {
                n.deleted_at
            } else {
                r.deleted_at
            };
            &&& kept.id == r.id
            &&& kept.created_at == r.created_at
            &&& kept.body == winner_body
            &&& kept.deleted_at == winner_deleted_at
            &&& kept.updated_at == now
            &&& kept.synced_at == Some(now)
            &&& kept.other_body is None
            &&& told == Some(crate::sync::for_phone(n, kept))
            &&& told matches Some(e) && e.id == n.id && e.body == winner_body && e.deleted_at
                == winner_deleted_at && e.updated_at == now && e.synced_at == Some(now)
                && e.other_body is None
        }),
{
}

/// Only the PC changed the note since the last agreed sync: the sync keeps
/// the PC copy as it is, its text and its soft delete (or its not being
/// deleted), and tells the phone that text and that deleted time.
pub proof fn lemma_pc_change_is_kept(n: SyncView, r: RowView, now: i64)
    requires
        crate::time::newer(r.updated_at, r.synced_at),
        !crate::time::newer(n.updated_at, n.synced_at),
    ensures
        ({
            let (kept, told) = merge_spec(n, r, now);
            &&& kept == RowView { updated_at: now, synced_at: Some(now), other_body: None, ..r }
            &&& told matches Some(e) && e.body == r.body && e.deleted_at == r.deleted_at
        }),
{
    lemma_one_sided_change_is_kept(n, r, now);
}

/// A refused request changes nothing.
pub proof fn lemma_refusal_changes_nothing(
    s: StoreView,
    id: Seq<char>,
    body: Seq<char>,
    now: i64,
    supplied: Supplied,
)
    ensures
        create_spec(s, id, body, now).1 is Err ==> create_spec(s, id, body, now).0 == s,
        update_spec(s, id, body, now).1 is Err ==> update_spec(s, id, body, now).0 == s,
        delete_spec(s, id, now).1 is Err ==> delete_spec(s, id, now).0 == s,
        restore_spec(s, id, now).1 is Err ==> restore_spec(s, id, now).0 == s,
        purge_spec(s, id, now).1 is Err ==> purge_spec(s, id, now).0 == s,
        accept_spec(s, id).1 is Err ==> accept_spec(s, id).0 == s,
        decline_spec(s, id, supplied).1 is Err ==> decline_spec(s, id, supplied).0 == s,
{
}

/// An edit, a soft delete and a restore keep the note's `created_at` and
/// set its `updated_at` to the time of the write.
pub proof fn lemma_writes_keep_created_at(s: StoreView, id: Seq<char>, body: Seq<char>, now: i64)
    requires
        s.wf(),
    ensures
        update_spec(s, id, body, now).1 is Ok ==> ({
            let k = s.row_index(id)->0;
            let t = update_spec(s, id, body, now).0;
            t.row_index(id) == Some(k) && t.rows[k].created_at == s.rows[k].created_at
                && t.rows[k].updated_at == now
        }),
        delete_spec(s, id, now).1 is Ok ==> ({
            let k = s.row_index(id)->0;
            let t = delete_spec(s, id, now).0;
            t.row_index(id) == Some(k) && t.rows[k].created_at == s.rows[k].created_at
                && t.rows[k].updated_at == now && t.rows[k].deleted_at == Some(now)
        }),
        restore_spec(s, id, now).1 is Ok ==> ({
            let k = s.row_index(id)->0;
            let t = restore_spec(s, id, now).0;
            t.row_index(id) == Some(k) && t.rows[k].created_at == s.rows[k].created_at
                && t.rows[k].updated_at == now && t.rows[k].deleted_at is None
        }),
{
    match s.row_index(id) {
        Some(k) => {
            let t1 = update_spec(s, id, body, now).0;
            let t2 = delete_spec(s, id, now).0;
            let t3 = restore_spec(s, id, now).0;
            assert(row_ids(t1.rows) == row_ids(s.rows));
            assert(row_ids(t2.rows) == row_ids(s.rows));
            assert(row_ids(t3.rows) == row_ids(s.rows));
            crate::model::lemma_find_id(row_ids(s.rows), id, k);
        },
        None => {},
    }
}

/// A soft delete and then a restore give the note back as it was, with the
/// restore's time as `updated_at`.
pub proof fn lemma_delete_then_restore(s: StoreView, id: Seq<char>, t1: i64, t2: i64)
    requires
        s.wf(),
        delete_spec(s, id, t1).1 is Ok,
    ensures
        ({
            let k = s.row_index(id)->0;
            let (back, answer) = restore_spec(delete_spec(s, id, t1).0, id, t2);
            &&& back.rows == s.rows.update(k, RowView { updated_at: t2, ..s.rows[k] })
            &&& back.purges == s.purges
            &&& answer == Ok::<crate::model::EntryView, ApiError>(
                crate::model::entry_of(RowView { updated_at: t2, ..s.rows[k] }),
            )
        }),
{
    let k = s.row_index(id)->0;
    let d = delete_spec(s, id, t1).0;
    assert(row_ids(d.rows) == row_ids(s.rows));
    crate::model::lemma_find_id(row_ids(s.rows), id, k);
    assert(d.rows.update(k, RowView { deleted_at: None, updated_at: t2, ..d.rows[k] })
        == s.rows.update(k, RowView { updated_at: t2, ..s.rows[k] }));
}

/// A soft-deleted note leaves the log and is on the deleted list.
pub proof fn lemma_delete_moves_to_deleted_list(s: StoreView, id: Seq<char>, now: i64)
    requires
        s.wf(),
        delete_spec(s, id, now).1 is Ok,
    ensures
        ({
            let t = delete_spec(s, id, now).0;
            let r = t.rows[s.row_index(id)->0];
            &&& r.id == id
            &&& !list_candidates(t.rows, false).contains(r)
            &&& list_candidates(t.rows, true).contains(r)
        }),
{
    let t = delete_spec(s, id, now).0;
    let k = s.row_index(id)->0;
    let r = t.rows[k];
    if list_candidates(t.rows, false).contains(r) {
        let i = choose|i: int|
            0 <= i < list_candidates(t.rows, false).len() && list_candidates(t.rows, false)[i]
                == r;
        t.rows.lemma_filter_pred(|x: RowView| crate::store::in_list(false, x), i);
    }
    t.rows.lemma_filter_contains(|x: RowView| crate::store::in_list(true, x), k);
}

/// A note just written heads the log when it is newer than every note on
/// the log.
pub proof fn lemma_new_note_heads_log(
    s: StoreView,
    id: Seq<char>,
    body: Seq<char>,
    now: i64,
    chosen: Seq<RowView>,
)
    requires
        s.wf(),
        create_spec(s, id, body, now).1 is Ok,
        forall|i: int|
            0 <= i < s.rows.len() && s.rows[i].deleted_at is None ==> #[trigger] s.rows[i].created_at
                < now,
        is_listing(create_spec(s, id, body, now).0.rows, false, chosen),
    ensures
        chosen.len() > 0,
        chosen[0] == create_spec(s, id, body, now).0.rows.last(),
{
    let t = create_spec(s, id, body, now).0;
    let r = t.rows.last();
    let cands = list_candidates(t.rows, false);
    let key = |x: RowView| list_key(false, x);
    t.rows.lemma_filter_contains(|x: RowView| crate::store::in_list(false, x), t.rows.len() - 1);
    assert(cands.contains(r));
    assert(cands.len() > 0);
    assert(chosen.len() > 0);
    if chosen[0] != r {
        assert(cands.contains(chosen[0]));
        let i = choose|i: int| 0 <= i < cands.len() && cands[i] == chosen[0];
        t.rows.lemma_filter_pred(|x: RowView| crate::store::in_list(false, x), i);
        assert(t.rows.filter(|x: RowView| crate::store::in_list(false, x)).contains(chosen[0]));
        t.rows.lemma_filter_contains_rev(|x: RowView| crate::store::in_list(false, x), chosen[0]);
        let j = choose|j: int| 0 <= j < t.rows.len() && t.rows[j] == chosen[0];
        if j < s.rows.len() {
            assert(s.rows[j] == t.rows[j]);
            assert(chosen[0].created_at < now);
        } else {
            assert(j == t.rows.len() - 1);
        }
        if chosen.contains(r) {
            let p = choose|p: int| 0 <= p < chosen.len() && chosen[p] == r;
            assert(p > 0);
            assert(crate::order::precedes(true, key(chosen[0]), key(chosen[p])));
        } else {
            assert(crate::order::precedes(true, key(chosen[0]), key(r)));
        }
    }
}

/// A purge of a note that never synced leaves no purge behind; a purge of
/// a note that synced keeps its id and the time of the purge (unless a
/// purge of that id is kept already).
pub proof fn lemma_purge_records_synced_notes(s: StoreView, id: Seq<char>, now: i64)
    requires
        s.wf(),
        purge_spec(s, id, now).1 is Ok,
    ensures
        ({
            let t = purge_spec(s, id, now).0;
            let r = s.rows[s.row_index(id)->0];
            &&& t.row_index(id) is None
            &&& t.rows == s.rows.remove(s.row_index(id)->0)
            &&& r.synced_at is None ==> t.purges == s.purges
            &&& r.synced_at is Some ==> t.purge_index(id) is Some
            &&& r.synced_at is Some && s.purge_index(id) is None ==> t.purges == s.purges.push(
                PurgeView { id, purged_at: now },
            )
            &&& s.purge_index(id) is Some ==> t.purges == s.purges
        }),
{
    let k = s.row_index(id)->0;
    let t = purge_spec(s, id, now).0;
    crate::model::lemma_find_id(row_ids(s.rows), id, k);
    assert(row_ids(t.rows) == row_ids(s.rows).remove(k));
    assert forall|i: int| 0 <= i < row_ids(t.rows).len() implies row_ids(t.rows)[i] != id by {
        if i < k {
            assert(row_ids(t.rows)[i] == row_ids(s.rows)[i]);
        } else {
            assert(row_ids(t.rows)[i] == row_ids(s.rows)[i + 1]);
        }
    }
    if s.rows[k].synced_at is Some {
        if s.purge_index(id) is None {
            assert(purge_ids(t.purges)[s.purges.len() as int] == id);
        }
    }
}

/// An id that is kept as a purge cannot be written again as a new note.
pub proof fn lemma_purged_id_refused(s: StoreView, id: Seq<char>, body: Seq<char>, now: i64)
    requires
        id_text(id) == Ok::<Seq<char>, ApiError>(id),
        s.purge_index(id) is Some,
    ensures
        create_spec(s, id, body, now).1 is Err,
        create_spec(s, id, body, now).0 == s,
{
}

proof fn lemma_echoed_not_asked(st: SyncState, ns: Seq<SyncView>, now: i64, id: Seq<char>)
    requires
        st.echoed.contains(id),
        forall|i: int| 0 <= i < st.purges.len() ==> (#[trigger] st.purges[i]).id != id,
    ensures
        forall|i: int|
            0 <= i < after_notes(st, ns, now).purges.len() ==> (#[trigger] after_notes(
                st,
                ns,
                now,
            ).purges[i]).id != id,
    decreases ns.len(),
{
    if ns.len() > 0 {
        let mid = after_notes(st, ns.drop_last(), now);
        lemma_echoed_not_asked(st, ns.drop_last(), now, id);
        lemma_after_notes_extends(st, ns.drop_last(), now);
        let n = ns.last();
        if !mid.echoed.contains(n.id) {
            match mid.store.purge_index(n.id) {
                Some(j) => {
                    assert(mid.store.purges[j].id == n.id);
                },
                None => {},
            }
        }
    }
}

/// Decline keeps the note and removes the purge; when the phone sends the
/// same purge again, it is not stored and not asked about again, and the
/// kept note goes back to the phone first.
pub proof fn lemma_declined_purge_returns_the_note(
    s: StoreView,
    id: Seq<char>,
    supplied: Supplied,
    ns: Seq<SyncView>,
    now: i64,
)
    requires
        s.wf(),
        s.purge_index(id) is Some,
        s.row_index(id) is Some,
    ensures
        ({
            let t = s.purges[s.purge_index(id)->0].purged_at;
            let k = s.row_index(id)->0;
            let (d, answer) = decline_spec(s, id, supplied);
            let (after, entries, asked) = sync_spec(
                d,
                ns,
                seq![PurgeView { id, purged_at: t }],
                now,
            );
            &&& answer is Ok
            &&& d.purge_index(id) is None
            &&& d.rows[k].declined_purged_at == Some(t)
            &&& after.purges == d.purges
            &&& entries.len() > 0
            &&& entries[0] == from_row(d.rows[k])
            &&& forall|i: int| 0 <= i < asked.len() ==> (#[trigger] asked[i]).id != id
        }),
{
    let j = s.purge_index(id)->0;
    let k = s.row_index(id)->0;
    let t = s.purges[j].purged_at;
    let d = decline_spec(s, id, supplied).0;
    crate::model::lemma_find_id(row_ids(s.rows), id, k);
    crate::model::lemma_find_id(purge_ids(s.purges), id, j);
    assert(row_ids(d.rows) == row_ids(s.rows));
    crate::model::lemma_find_id(row_ids(d.rows), id, k);
    assert(purge_ids(d.purges) == purge_ids(s.purges).remove(j));
    assert forall|i: int| 0 <= i < purge_ids(d.purges).len() implies purge_ids(d.purges)[i]
        != id by {
        if i < j {
            assert(purge_ids(d.purges)[i] == purge_ids(s.purges)[i]);
        } else {
            assert(purge_ids(d.purges)[i] == purge_ids(s.purges)[i + 1]);
        }
    }
    let p = PurgeView { id, purged_at: t };
    let ps = seq![p];
    assert(ps.drop_last() == Seq::<PurgeView>::empty());
    assert(ps.last() == p);
    let base = after_purges(d, Seq::<PurgeView>::empty());
    let st1 = after_purges(d, ps);
    assert(st1 == purge_step(base, p));
    assert(st1.store == d);
    assert(st1.entries == seq![from_row(d.rows[k])]);
    assert(st1.echoed == seq![id]);
    assert(st1.echoed[0] == id);
    lemma_after_notes_extends(st1, ns, now);
    lemma_echoed_not_asked(st1, ns, now, id);
}

/// A note only the phone has, and whose id is not purged, is stored as
/// the phone sent it, stamped with the PC's clock, and the phone is told the
/// stored copy.
pub proof fn lemma_phone_only_note_is_stored(s: StoreView, n: SyncView, now: i64)
    requires
        s.row_index(n.id) is None,
        s.purge_index(n.id) is None,
    ensures
        ({
            let (t, entries, asked) = sync_spec(s, seq![n], Seq::empty(), now);
            &&& t.rows.len() == s.rows.len() + 1
            &&& t.rows[s.rows.len() as int] == crate::sync::phone_row(n, now)
            &&& entries.len() > 0
            &&& entries[0] == crate::sync::for_phone(n, crate::sync::phone_row(n, now))
            &&& asked.len() == 0
        }),
{
    let base = after_purges(s, Seq::<PurgeView>::empty());
    assert(seq![n].drop_last() == Seq::<SyncView>::empty());
    assert(seq![n].last() == n);
    assert(after_notes(base, Seq::<SyncView>::empty(), now) == base);
    let st = after_notes(base, seq![n], now);
    assert(st == note_step(base, n, now));
    assert(sync_ids(seq![n])[0] == n.id);
}

/// A note only the PC has is stamped with the PC's clock and sent to the
/// phone, when the phone sends nothing.
pub proof fn lemma_pc_only_notes_are_sent(s: StoreView, now: i64, i: int)
    requires
        0 <= i < s.rows.len(),
        s.purge_index(s.rows[i].id) is None,
    ensures
        ({
            let (t, entries, asked) = sync_spec(s, Seq::empty(), Seq::empty(), now);
            &&& t.rows[i] == stamped(s.rows[i], now)
            &&& entries.contains(from_row(stamped(s.rows[i], now)))
            &&& asked.len() == 0
        }),
{
    let ns = Seq::<SyncView>::empty();
    let ps = Seq::<PurgeView>::empty();
    let base = after_purges(s, ps);
    assert(after_notes(base, ns, now) == base);
    let only = |r: RowView| pc_only(s, ns, ps, r);
    assert(only(s.rows[i]));
    s.rows.lemma_filter_contains(only, i);
    let f = s.rows.filter(only);
    let j = choose|j: int| 0 <= j < f.len() && f[j] == s.rows[i];
    let mapped = f.map_values(|r: RowView| from_row(stamped(r, now)));
    assert(mapped[j] == from_row(stamped(s.rows[i], now)));
    let (t, entries, asked) = sync_spec(s, ns, ps, now);
    assert(entries == Seq::<SyncView>::empty() + mapped);
    assert(entries[j] == mapped[j]);
}

/// A sync of notes each of which leaves the state as it is changes nothing.
proof fn lemma_idle_notes(st: SyncState, ns: Seq<SyncView>, now: i64)
    requires
        forall|i: int| 0 <= i < ns.len() ==> note_step(st, #[trigger] ns[i], now) == st,
    ensures
        after_notes(st, ns, now) == st,
    decreases ns.len(),
{
    if ns.len() > 0 {
        lemma_idle_notes(st, ns.drop_last(), now);
        assert(note_step(st, ns[ns.len() - 1], now) == st);
    }
}

/// What a sync sends the phone, sent back unchanged by the next sync with
/// nothing written in between, is the agreed version of every note: the
/// second sync answers no note and no purge and changes no row.
pub proof fn lemma_second_sync_answers_nothing(s: StoreView, now1: i64, now2: i64)
    requires
        s.wf(),
    ensures
        ({
            let (t, sent, asked) = sync_spec(s, Seq::empty(), Seq::empty(), now1);
            let (t2, sent2, asked2) = sync_spec(t, sent, Seq::empty(), now2);
            &&& asked.len() == 0
            &&& t2 == t
            &&& sent2.len() == 0
            &&& asked2.len() == 0
        }),
{
    let ns0 = Seq::<SyncView>::empty();
    let ps0 = Seq::<PurgeView>::empty();
    let base = after_purges(s, ps0);
    assert(after_notes(base, ns0, now1) == base);
    let only = |r: RowView| pc_only(s, ns0, ps0, r);
    let f = s.rows.filter(only);
    let t = s.with_rows(s.rows.map_values(|r: RowView| if only(r) { stamped(r, now1) } else { r }));
    let sent = f.map_values(|r: RowView| from_row(stamped(r, now1)));
    let (t1, sent1, asked1) = sync_spec(s, ns0, ps0, now1);
    assert(t1 == t);
    assert(sent1 == sent);
    assert(row_ids(t.rows) == row_ids(s.rows));
    assert(t.wf());
    let st0 = after_purges(t, ps0);
    assert(st0 == SyncState {
        store: t,
        entries: Seq::empty(),
        purges: Seq::empty(),
        echoed: Seq::empty(),
    });
    assert forall|i: int| 0 <= i < sent.len() implies note_step(st0, #[trigger] sent[i], now2)
        == st0 by {
        let r = f[i];
        s.rows.lemma_filter_pred(only, i);
        assert(f.contains(r));
        s.rows.lemma_filter_contains_rev(only, r);
        let k = choose|k: int| 0 <= k < s.rows.len() && s.rows[k] == r;
        let n = sent[i];
        assert(n == from_row(stamped(r, now1)));
        assert(t.rows[k] == stamped(r, now1));
        assert(row_ids(t.rows)[k] == n.id);
        crate::model::lemma_find_id(row_ids(t.rows), n.id, k);
        assert(t.purge_index(n.id) is None);
        lemma_answer_is_agreed(n, t.rows[k], now2);
        assert(t.rows.update(k, t.rows[k]) == t.rows);
    }
    lemma_idle_notes(st0, sent, now2);
    let only2 = |r: RowView| pc_only(t, sent, ps0, r);
    assert forall|k: int| 0 <= k < t.rows.len() implies !only2(#[trigger] t.rows[k]) by {
        if t.purge_index(t.rows[k].id) is None {
            assert(only(s.rows[k]));
            s.rows.lemma_filter_contains(only, k);
            let i = choose|i: int| 0 <= i < f.len() && f[i] == s.rows[k];
            assert(sent[i].id == s.rows[k].id);
            assert(sync_ids(sent)[i] == t.rows[k].id);
        }
    }
    assert(t.rows.filter(only2).len() == 0) by {
        if t.rows.filter(only2).len() > 0 {
            let x = t.rows.filter(only2)[0];
            t.rows.lemma_filter_pred(only2, 0);
            assert(t.rows.filter(only2).contains(x));
            t.rows.lemma_filter_contains_rev(only2, x);
        }
    }
    assert(t.rows.map_values(|r: RowView| if only2(r) { stamped(r, now2) } else { r }) == t.rows);
}

proof fn lemma_merge_answers_same_id(n: SyncView, r: RowView, now: i64)
    ensures
        merge_spec(n, r, now).1 matches Some(e) ==> e.id == n.id,
{
}

/// While the purge `p` of `id` is kept and the note `id` stands at `k0`,
/// the phone's notes leave that note, the purges and the echoed ids as they
/// are, send no entry for `id`, and ask about `p` whenever a note of `id`
/// comes.
proof fn lemma_purged_note_asked(
    st: SyncState,
    ns: Seq<SyncView>,
    now: i64,
    id: Seq<char>,
    p: PurgeView,
    k0: int,
)
    requires
        0 <= k0 < st.store.rows.len(),
        st.store.rows[k0].id == id,
        st.store.purge_index(id) is Some,
        st.store.purges[st.store.purge_index(id)->0] == p,
        !st.echoed.contains(id),
        forall|i: int| 0 <= i < st.entries.len() ==> (#[trigger] st.entries[i]).id != id,
    ensures
        ({
            let r = after_notes(st, ns, now);
            &&& r.store.purges == st.store.purges
            &&& r.store.rows.len() >= st.store.rows.len()
            &&& r.store.rows[k0] == st.store.rows[k0]
            &&& r.echoed == st.echoed
            &&& forall|i: int| 0 <= i < r.entries.len() ==> (#[trigger] r.entries[i]).id != id
            &&& st.purges.contains(p) ==> r.purges.contains(p)
            &&& sync_ids(ns).contains(id) ==> r.purges.contains(p)
        }),
    decreases ns.len(),
{
    if ns.len() > 0 {
        let rest = ns.drop_last();
        let n = ns.last();
        lemma_purged_note_asked(st, rest, now, id, p, k0);
        let mid = after_notes(st, rest, now);
        let r = note_step(mid, n, now);
        assert(r == after_notes(st, ns, now));
        let sm = mid.store;
        if !mid.echoed.contains(n.id) {
            match sm.purge_index(n.id) {
                Some(j) => {
                    assert(r.purges == mid.purges.push(sm.purges[j]));
                    if n.id == id {
                        assert(r.purges[mid.purges.len() as int] == p);
                    }
                    assert forall|x: PurgeView| mid.purges.contains(x) implies r.purges.contains(
                        x,
                    ) by {
                        let q = choose|q: int| 0 <= q < mid.purges.len() && mid.purges[q] == x;
                        assert(r.purges[q] == x);
                    }
                },
                None => {
                    assert(n.id != id);
                    match sm.row_index(n.id) {
                        Some(k) => {
                            assert(k != k0);
                            lemma_merge_answers_same_id(n, sm.rows[k], now);
                            lemma_merge_keeps_identity(n, sm.rows[k], now);
                        },
                        None => {},
                    }
                },
            }
        } else {
            assert(n.id != id);
        }
        if sync_ids(ns).contains(id) && !sync_ids(rest).contains(id) {
            let q = choose|q: int| 0 <= q < sync_ids(ns).len() && sync_ids(ns)[q] == id;
            if q < rest.len() {
                assert(sync_ids(rest)[q] == id);
            }
            assert(n.id == id);
        }
    }
}

/// The phone's purges, when every purge of `p.id` among them is `p` and the
/// answered purge time of that note is another: the note keeps its place and
/// id, its answered time is cleared once `p` came, `p` is kept then, no
/// entry of that id is sent and its id is not echoed.
proof fn lemma_purges_clear_answered(s: StoreView, ps: Seq<PurgeView>, p: PurgeView, k: int)
    requires
        s.wf(),
        0 <= k < s.rows.len(),
        s.rows[k].id == p.id,
        s.rows[k].declined_purged_at != Some(p.purged_at),
        s.purge_index(p.id) is None,
        forall|i: int| 0 <= i < ps.len() && (#[trigger] ps[i]).id == p.id ==> ps[i] == p,
    ensures
        ({
            let st = after_purges(s, ps);
            &&& row_ids(st.store.rows) == row_ids(s.rows)
            &&& purge_ids(st.store.purges).no_duplicates()
            &&& st.store.rows[k] == (if ps.contains(p) {
                RowView { declined_purged_at: None, ..s.rows[k] }
            } else {
                s.rows[k]
            })
            &&& ps.contains(p) ==> st.store.purges.contains(p)
            &&& !ps.contains(p) ==> !purge_ids(st.store.purges).contains(p.id)
            &&& forall|i: int| 0 <= i < st.entries.len() ==> (#[trigger] st.entries[i]).id != p.id
            &&& !st.echoed.contains(p.id)
        }),
    decreases ps.len(),
{
    if ps.len() > 0 {
        let rest = ps.drop_last();
        let q = ps.last();
        assert forall|i: int| 0 <= i < rest.len() && (#[trigger] rest[i]).id == p.id implies rest[i]
            == p by {
            assert(ps[i] == rest[i]);
        }
        lemma_purges_clear_answered(s, rest, p, k);
        let mid = after_purges(s, rest);
        let st = after_purges(s, ps);
        assert(st == purge_step(mid, q));
        let sm = mid.store;
        assert(ps == rest.push(q));
        assert(q.id == p.id ==> q == p) by {
            if q.id == p.id {
                assert(ps[ps.len() - 1] == q);
            }
        }
        assert(ps.contains(p) <==> (rest.contains(p) || q == p)) by {
            if ps.contains(p) && q != p {
                let i = choose|i: int| 0 <= i < ps.len() && ps[i] == p;
                assert(rest[i] == p);
            }
            if q == p {
                assert(ps[ps.len() - 1] == p);
            }
            if rest.contains(p) {
                let i = choose|i: int| 0 <= i < rest.len() && rest[i] == p;
                assert(ps[i] == p);
            }
        }
        crate::model::lemma_find_id(row_ids(sm.rows), p.id, k);
        assert(sm.row_index(p.id) == Some(k));
        match sm.row_index(q.id) {
            Some(kq) => {
                assert(row_ids(sm.rows)[kq] == q.id);
                if sm.rows[kq].declined_purged_at == Some(q.purged_at) {
                    assert(q.id != p.id);
                    assert(st.store == sm);
                    assert(st.entries == mid.entries.push(from_row(sm.rows[kq])));
                    assert forall|i: int| 0 <= i < st.entries.len() implies (
                    #[trigger] st.entries[i]).id != p.id by {
                        if i < mid.entries.len() {
                            assert(st.entries[i] == mid.entries[i]);
                        }
                    }
                    assert(st.echoed == mid.echoed.push(q.id));
                    assert(!st.echoed.contains(p.id)) by {
                        if st.echoed.contains(p.id) {
                            let i = choose|i: int| 0 <= i < st.echoed.len() && st.echoed[i] == p.id;
                            if i < mid.echoed.len() {
                                assert(mid.echoed[i] == p.id);
                            }
                        }
                    }
                } else {
                    lemma_purge_step_store(mid, q, p, k);
                }
            },
            None => {
                lemma_purge_step_store(mid, q, p, k);
            },
        }
    }
}

/// One purge that is not answered by an echo: what it does to the note of
/// `p.id` at `k` and to the kept purges.
proof fn lemma_purge_step_store(mid: SyncState, q: PurgeView, p: PurgeView, k: int)
    requires
        0 <= k < mid.store.rows.len(),
        mid.store.rows[k].id == p.id,
        row_ids(mid.store.rows).no_duplicates(),
        purge_ids(mid.store.purges).no_duplicates(),
        q.id == p.id ==> q == p,
        mid.store.rows[k].declined_purged_at != Some(p.purged_at),
        !(mid.store.row_index(q.id) matches Some(kq) && mid.store.rows[kq].declined_purged_at
            == Some(q.purged_at)),
        mid.store.purges.contains(p) || !purge_ids(mid.store.purges).contains(p.id),
    ensures
        ({
            let st = purge_step(mid, q);
            &&& row_ids(st.store.rows) == row_ids(mid.store.rows)
            &&& purge_ids(st.store.purges).no_duplicates()
            &&& st.store.rows[k] == (if q == p {
                RowView { declined_purged_at: None, ..mid.store.rows[k] }
            } else {
                mid.store.rows[k]
            })
            &&& q == p ==> st.store.purges.contains(p)
            &&& mid.store.purges.contains(p) ==> st.store.purges.contains(p)
            &&& q != p && !purge_ids(mid.store.purges).contains(p.id) ==> !purge_ids(
                st.store.purges,
            ).contains(p.id)
            &&& st.entries == mid.entries
            &&& st.echoed == mid.echoed
        }),
{
    let sm = mid.store;
    let st = purge_step(mid, q);
    crate::model::lemma_find_id(row_ids(sm.rows), p.id, k);
    let purges = if sm.purge_index(q.id) is None {
        sm.purges.push(q)
    } else {
        sm.purges
    };
    assert(st.store.purges == purges);
    if sm.purge_index(q.id) is None {
        assert(!purge_ids(sm.purges).contains(q.id));
        assert(purge_ids(purges) == purge_ids(sm.purges).push(q.id));
        assert(purges[sm.purges.len() as int] == q);
        if sm.purges.contains(p) {
            let j = choose|j: int| 0 <= j < sm.purges.len() && sm.purges[j] == p;
            assert(purges[j] == p);
        }
        if q != p && !purge_ids(sm.purges).contains(p.id) {
            assert(q.id != p.id);
            assert(!purge_ids(purges).contains(p.id)) by {
                if purge_ids(purges).contains(p.id) {
                    let j = choose|j: int| 0 <= j < purge_ids(purges).len() && purge_ids(purges)[j]
                        == p.id;
                    if j < sm.purges.len() {
                        assert(purge_ids(sm.purges)[j] == p.id);
                    }
                }
            }
        }
    } else {
        let j = sm.purge_index(q.id)->0;
        assert(purge_ids(sm.purges)[j] == q.id);
        if q == p {
            assert(sm.purges[j].id == p.id);
            assert(purge_ids(sm.purges).contains(p.id));
        }
    }
    match sm.row_index(q.id) {
        Some(kq) => {
            assert(row_ids(sm.rows)[kq] == q.id);
            if q.id == p.id {
                assert(kq == k);
            } else {
                assert(kq != k);
            }
            if sm.rows[kq].declined_purged_at is Some {
                let rows = sm.rows.update(kq, RowView { declined_purged_at: None, ..sm.rows[kq] });
                assert(st.store.rows == rows);
                assert(row_ids(rows) == row_ids(sm.rows));
            } else {
                assert(st.store.rows == sm.rows);
                if q == p {
                    assert(sm.rows[k] == RowView { declined_purged_at: None, ..sm.rows[k] });
                }
            }
        },
        None => {
            assert(q.id != p.id);
            assert(st.store.rows == sm.rows);
        },
    }
}

/// A purge with a new time, after a decline answered an earlier time, is a
/// later purge, whatever other purges come with it: it is stored, the
/// answered time is cleared, the phone is asked about it again when it
/// sends the note, and no entry of that id is sent.
pub proof fn lemma_later_purge_asks_again(
    s: StoreView,
    ns: Seq<SyncView>,
    ps: Seq<PurgeView>,
    p: PurgeView,
    now: i64,
)
    requires
        s.wf(),
        purge_ids(ps).no_duplicates(),
        ps.contains(p),
        s.row_index(p.id) is Some,
        s.rows[s.row_index(p.id)->0].declined_purged_at is Some,
        s.rows[s.row_index(p.id)->0].declined_purged_at != Some(p.purged_at),
        s.purge_index(p.id) is None,
        sync_ids(ns).contains(p.id),
    ensures
        ({
            let k = s.row_index(p.id)->0;
            let (t, entries, asked) = sync_spec(s, ns, ps, now);
            &&& t.purge_index(p.id) is Some
            &&& t.purges[t.purge_index(p.id)->0] == p
            &&& t.rows[k] == RowView { declined_purged_at: None, ..s.rows[k] }
            &&& asked.contains(p)
            &&& forall|i: int| 0 <= i < entries.len() ==> (#[trigger] entries[i]).id != p.id
        }),
{
    let id = p.id;
    let k = s.row_index(id)->0;
    assert(row_ids(s.rows)[k] == id);
    assert forall|i: int| 0 <= i < ps.len() && (#[trigger] ps[i]).id == id implies ps[i] == p by {
        let j = choose|j: int| 0 <= j < ps.len() && ps[j] == p;
        assert(purge_ids(ps)[i] == purge_ids(ps)[j]);
    }
    lemma_purges_clear_answered(s, ps, p, k);
    let st1 = after_purges(s, ps);
    let s1 = st1.store;
    let j = choose|j: int| 0 <= j < s1.purges.len() && s1.purges[j] == p;
    assert(purge_ids(s1.purges)[j] == id);
    crate::model::lemma_find_id(purge_ids(s1.purges), id, j);
    assert(row_ids(s1.rows)[k] == id);
    lemma_purged_note_asked(st1, ns, now, id, p, k);
    let st = after_notes(st1, ns, now);
    let t0 = st.store;
    let only = |r: RowView| pc_only(t0, ns, ps, r);
    let rows = t0.rows.map_values(|r: RowView| if only(r) { stamped(r, now) } else { r });
    assert(t0.purge_index(id) is Some);
    assert(!only(t0.rows[k]));
    assert(rows[k] == t0.rows[k]);
    let f = t0.rows.filter(only);
    let extra = f.map_values(|r: RowView| from_row(stamped(r, now)));
    assert forall|i: int| 0 <= i < extra.len() implies (#[trigger] extra[i]).id != id by {
        t0.rows.lemma_filter_pred(only, i);
        assert(extra[i].id == f[i].id);
    }
    let (t, entries, asked) = sync_spec(s, ns, ps, now);
    assert(entries == st.entries + extra);
    assert forall|i: int| 0 <= i < entries.len() implies (#[trigger] entries[i]).id != id by {
        if i < st.entries.len() {
            assert(entries[i] == st.entries[i]);
        } else {
            assert(entries[i] == extra[i - st.entries.len()]);
        }
    }
}

/// A list shows only notes of its kind, newest first: the deleted list by
/// the time of the soft delete, the log by the time of writing, each then
/// by id, the larger first; every note of the kind that is left out comes
/// after every note that is shown, and a note is left out only when the
/// list is full at 50.
pub proof fn lemma_listing_newest_first(rows: Seq<RowView>, deleted: bool, chosen: Seq<RowView>)
    requires
        is_listing(rows, deleted, chosen),
    ensures
        chosen.len() <= 50,
        forall|r: RowView|
            #[trigger] rows.contains(r) && (r.deleted_at is Some) == deleted && !chosen.contains(r)
                ==> chosen.len() == 50,
        forall|i: int|
            0 <= i < chosen.len() ==> rows.contains(#[trigger] chosen[i]) && (chosen[i].deleted_at
                is Some) == deleted,
        deleted ==> forall|i: int, j: int|
            0 <= i < j < chosen.len() ==> {
                let (a, b) = (#[trigger] chosen[i], #[trigger] chosen[j]);
                a.deleted_at->0 > b.deleted_at->0 || (a.deleted_at->0 == b.deleted_at->0
                    && text_less(b.id, a.id))
            },
        !deleted ==> forall|i: int, j: int|
            0 <= i < j < chosen.len() ==> {
                let (a, b) = (#[trigger] chosen[i], #[trigger] chosen[j]);
                a.created_at > b.created_at || (a.created_at == b.created_at && text_less(b.id, a.id))
            },
        deleted ==> forall|r: RowView, i: int|
            #![trigger rows.contains(r), chosen[i]]
            rows.contains(r) && r.deleted_at is Some && !chosen.contains(r) && 0 <= i < chosen.len()
                ==> {
                let a = chosen[i];
                a.deleted_at->0 > r.deleted_at->0 || (a.deleted_at->0 == r.deleted_at->0
                    && text_less(r.id, a.id))
            },
        !deleted ==> forall|r: RowView, i: int|
            #![trigger rows.contains(r), chosen[i]]
            rows.contains(r) && r.deleted_at is None && !chosen.contains(r) && 0 <= i < chosen.len()
                ==> {
                let a = chosen[i];
                a.created_at > r.created_at || (a.created_at == r.created_at && text_less(r.id, a.id))
            },
{
    let sel = |x: RowView| crate::store::in_list(deleted, x);
    let cands = list_candidates(rows, deleted);
    let key = |x: RowView| list_key(deleted, x);
    assert forall|i: int| 0 <= i < chosen.len() implies rows.contains(#[trigger] chosen[i]) && (
    chosen[i].deleted_at is Some) == deleted by {
        assert(cands.contains(chosen[i]));
        let c = choose|c: int| 0 <= c < cands.len() && cands[c] == chosen[i];
        rows.lemma_filter_pred(sel, c);
        rows.lemma_filter_contains_rev(sel, chosen[i]);
    }
    assert forall|i: int, j: int| 0 <= i < j < chosen.len() implies crate::order::precedes(
        true,
        key(#[trigger] chosen[i]),
        key(#[trigger] chosen[j]),
    ) by {}
    assert forall|r: RowView, i: int|
        #![trigger rows.contains(r), chosen[i]]
        rows.contains(r) && (r.deleted_at is Some) == deleted && !chosen.contains(r) && 0 <= i
            < chosen.len() implies crate::order::precedes(
        true,
        key(chosen[i]),
        key(r),
    ) by {
        let k = choose|k: int| 0 <= k < rows.len() && rows[k] == r;
        rows.lemma_filter_contains(sel, k);
    }
    assert forall|r: RowView|
        #[trigger] rows.contains(r) && (r.deleted_at is Some) == deleted && !chosen.contains(r)
            implies chosen.len() == 50 by {
        let k = choose|k: int| 0 <= k < rows.len() && rows[k] == r;
        rows.lemma_filter_contains(sel, k);
        if cands.len() <= 50 {
            lemma_first_by_takes_all(cands, key, true, 50, chosen, r);
        }
    }
}

/// An edit makes the note the user's text alone: the other text that a
/// sync kept beside it is dropped, the note is back on the log, its
/// `updated_at` is the time of the edit, and nothing else changes.
pub proof fn lemma_edit_clears_other_text(s: StoreView, id: Seq<char>, body: Seq<char>, now: i64)
    requires
        s.wf(),
        update_spec(s, id, body, now).1 is Ok,
    ensures
        ({
            let k = s.row_index(id)->0;
            let (t, answer) = update_spec(s, id, body, now);
            let r = t.rows[k];
            &&& 0 <= k < s.rows.len()
            &&& t.rows.len() == s.rows.len()
            &&& t.purges == s.purges
            &&& forall|i: int| 0 <= i < s.rows.len() && i != k ==> t.rows[i] == s.rows[i]
            &&& r.id == id
            &&& r.other_body is None
            &&& r.deleted_at is None
            &&& r.updated_at == now
            &&& r.created_at == s.rows[k].created_at
            &&& r.synced_at == s.rows[k].synced_at
            &&& r.declined_purged_at == s.rows[k].declined_purged_at
            &&& answer matches Ok(e) && e.id == id && e.body == r.body && e.deleted_at is None
        }),
{
    let k = s.row_index(id)->0;
    assert(row_ids(s.rows)[k] == id);
}

/// Every purge whose id is still a note here waits for an answer, whether
/// that note is on the log or soft-deleted; nothing else is listed, and the
/// list runs from the oldest purge, then by id, the smaller first.
pub proof fn lemma_pending_lists_every_purged_note(s: StoreView, chosen: Seq<PurgeView>)
    requires
        s.wf(),
        is_pending_list(s, chosen),
    ensures
        forall|j: int|
            0 <= j < s.purges.len() && s.row_index(s.purges[j].id) is Some ==> chosen.contains(
                #[trigger] s.purges[j],
            ),
        forall|id: Seq<char>|
            #[trigger] s.purge_index(id) is Some && s.row_index(id) is Some ==> exists|i: int|
                0 <= i < chosen.len() && chosen[i].id == id,
        forall|i: int|
            0 <= i < chosen.len() ==> s.purges.contains(#[trigger] chosen[i]) && s.row_index(
                chosen[i].id,
            ) is Some,
        forall|i: int, j: int|
            0 <= i < j < chosen.len() ==> {
                let (a, b) = (#[trigger] chosen[i], #[trigger] chosen[j]);
                a.purged_at < b.purged_at || (a.purged_at == b.purged_at && text_less(a.id, b.id))
            },
{
    let sel = |p: PurgeView| s.row_index(p.id) is Some;
    let key = |p: PurgeView| crate::sync::pending_key(p);
    let cands = s.purges.filter(sel);
    s.purges.lemma_filter_len(sel);
    assert forall|j: int|
        0 <= j < s.purges.len() && s.row_index(s.purges[j].id) is Some implies chosen.contains(
        #[trigger] s.purges[j],
    ) by {
        s.purges.lemma_filter_contains(sel, j);
        lemma_first_by_takes_all(cands, key, false, s.purges.len() as int, chosen, s.purges[j]);
    }
    assert forall|id: Seq<char>|
        #[trigger] s.purge_index(id) is Some && s.row_index(id) is Some implies exists|i: int|
        0 <= i < chosen.len() && chosen[i].id == id by {
        let j = s.purge_index(id)->0;
        assert(purge_ids(s.purges)[j] == id);
        assert(chosen.contains(s.purges[j]));
        let i = choose|i: int| 0 <= i < chosen.len() && chosen[i] == s.purges[j];
        assert(chosen[i].id == id);
    }
    assert forall|i: int| 0 <= i < chosen.len() implies s.purges.contains(#[trigger] chosen[i])
        && s.row_index(chosen[i].id) is Some by {
        assert(cands.contains(chosen[i]));
        let c = choose|c: int| 0 <= c < cands.len() && cands[c] == chosen[i];
        s.purges.lemma_filter_pred(sel, c);
        s.purges.lemma_filter_contains_rev(sel, chosen[i]);
    }
    assert forall|i: int, j: int| 0 <= i < j < chosen.len() implies crate::order::precedes(
        false,
        key(#[trigger] chosen[i]),
        key(#[trigger] chosen[j]),
    ) by {}
}

} // verus!
