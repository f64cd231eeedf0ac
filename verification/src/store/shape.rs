//! The shape of the rows that are recorded: an end holds nothing and has no size, anything
//! else holds something and has one; and what rests on a revision belongs to the same file.
use vstd::prelude::*;

use crate::store::listing::{
    history,
    history_entry,
    law_oldest_first_sorts,
    newest_first,
    oldest_first,
    revisions_of,
    with_deletes,
    HistoryEntry,
};
use crate::store::lookup::{
    file_id_of,
    latest,
    lemma_latest_at,
    lemma_revision_at,
    lemma_revision_of,
    newer,
    revision_of,
};
use crate::store::migrate::{
    all_stand_alone,
    law_migration_leaves_full_copies,
    migrated,
    only_watcher,
    stands_alone,
    LegacyFileView,
    LegacyRevisionView,
};
use crate::store::newest::law_delete_keeps_agreement;
use crate::store::in_turn::law_files_are_pruned_apart;
use crate::store::prune::{
    base_stays_in_file,
    bases_stay_in_files,
    prune_outcome,
    pruned,
    settled,
    stays,
};
use crate::store::record::{
    lemma_seen_keeps_numbers,
    with_context,
    with_context_seen,
    with_delete,
    with_file,
    with_text,
    with_watcher,
};
use crate::store::retention::{law_pruning_keeps_what_stays, lemma_pruned_ascends, remains};
use crate::store::rows::{
    EventType,
    RecordView,
    RevisionView,
    StorageKind,
    WatcherView,
};
use crate::store::sound::lemma_with_file_finds;
use crate::store::tables::{base_holds, Tables};

verus! {

/// Whether a revision is an end, holds nothing and has no size, or is none of these.
pub open spec fn is_shaped(r: RevisionView) -> bool {
    &&& (r.event_type == EventType::Delete) == (r.storage_kind == StorageKind::Absent)
    &&& (r.event_type == EventType::Delete) == (r.size_bytes is None)
}

/// Whether every revision has the shape of what is recorded, and rests on one of its own
/// file if on any.
pub open spec fn well_shaped(t: Tables) -> bool {
    &&& forall|i: int| 0 <= i < t.revisions.len() ==> is_shaped(#[trigger] t.revisions[i])
    &&& bases_stay_in_files(t.revisions)
}

/// An empty timeline is well shaped.
pub proof fn law_empty_is_well_shaped()
    ensures
        well_shaped(Tables::empty()),
{
}

proof fn lemma_push_is_well_shaped(t: Tables, v: Tables, n: RevisionView)
    requires
        t.wf(),
        well_shaped(t),
        v.revisions == t.revisions.push(n),
        n.id > t.last_revision_id,
        is_shaped(n),
        n.base_revision_id matches Some(b) ==> exists|i: int|
            0 <= i < t.revisions.len() && (#[trigger] t.revisions[i]).id == b
                && t.revisions[i].file_id == n.file_id,
    ensures
        well_shaped(v),
{
    let rs = t.revisions;
    let all = v.revisions;
    assert(all.drop_last() =~= rs);
    assert forall|i: int| 0 <= i < all.len() implies is_shaped(#[trigger] all[i]) by {
        if i < rs.len() {
            assert(all[i] == rs[i]);
        }
    }
    assert forall|i: int| 0 <= i < all.len() implies base_stays_in_file(all, #[trigger] all[i]) by {
        let r = all[i];
        if i < rs.len() {
            assert(all[i] == rs[i]);
            assert(base_stays_in_file(rs, rs[i]));
            if r.base_revision_id is Some {
                let b = r.base_revision_id->Some_0;
                assert(base_holds(rs, rs[i]));
                let j = choose|j: int| 0 <= j < rs.len() && (#[trigger] rs[j]).id == b;
                assert(rs[j].id <= t.last_revision_id);
            }
        } else if r.base_revision_id is Some {
            let b = r.base_revision_id->Some_0;
            let j = choose|j: int|
                0 <= j < rs.len() && (#[trigger] rs[j]).id == b && rs[j].file_id == n.file_id;
            lemma_revision_at(rs, j);
            assert(rs[j].id <= t.last_revision_id);
        }
    }
}

/// Recording a content keeps a timeline well shaped.
pub proof fn law_text_keeps_shape(
    t: Tables,
    path: Seq<char>,
    content: Seq<char>,
    recorded_at_ms: i64,
    context_id: i64,
    interval: i64,
)
    requires
        t.wf(),
        well_shaped(t),
        with_text(t, path, content, recorded_at_ms, context_id, interval) is Ok,
    ensures
        well_shaped(with_text(t, path, content, recorded_at_ms, context_id, interval)->Ok_0.0),
{
    let seen = with_context_seen(t, context_id, recorded_at_ms);
    lemma_seen_keeps_numbers(t, context_id, recorded_at_ms);
    lemma_with_file_finds(seen, context_id, path, recorded_at_ms);
    let (u, file_id) = with_file(seen, context_id, path, recorded_at_ms)->Ok_0;
    let (v, added) = with_text(t, path, content, recorded_at_ms, context_id, interval)->Ok_0;
    let rs = t.revisions;
    if added {
        let n = v.revisions.last();
        assert(v.revisions == rs.push(n));
        lemma_latest_at(rs, file_id, i64::MAX);
        if n.base_revision_id is Some {
            let newest = latest(rs, file_id)->Some_0;
            let i = choose|i: int| 0 <= i < rs.len() && #[trigger] rs[i] == newest;
            assert(rs[i].id == n.base_revision_id->Some_0);
        }
        lemma_push_is_well_shaped(t, v, n);
    }
}

/// Recording an end keeps a timeline well shaped.
pub proof fn law_delete_keeps_shape(
    t: Tables,
    path: Seq<char>,
    recorded_at_ms: i64,
    context_id: i64,
)
    requires
        t.wf(),
        well_shaped(t),
        with_delete(t, path, recorded_at_ms, context_id) is Ok,
    ensures
        well_shaped(with_delete(t, path, recorded_at_ms, context_id)->Ok_0.0),
{
    let (w, added) = with_delete(t, path, recorded_at_ms, context_id)->Ok_0;
    if added {
        let n = w.revisions.last();
        assert(w.revisions == t.revisions.push(n));
        lemma_push_is_well_shaped(t, w, n);
    }
}

/// Recording the ends of several files keeps a timeline well shaped, also where one of them
/// fails.
pub proof fn law_deletes_keep_shape(
    t: Tables,
    paths: Seq<Seq<char>>,
    recorded_at_ms: i64,
    context_id: i64,
)
    requires
        t.wf(),
        well_shaped(t),
    ensures
        with_deletes(t, paths, recorded_at_ms, context_id).0.wf(),
        well_shaped(with_deletes(t, paths, recorded_at_ms, context_id).0),
    decreases paths.len(),
{
    if paths.len() > 0 {
        law_deletes_keep_shape(t, paths.drop_last(), recorded_at_ms, context_id);
        let (u, res) = with_deletes(t, paths.drop_last(), recorded_at_ms, context_id);
        if res is Ok && with_delete(u, paths.last(), recorded_at_ms, context_id) is Ok {
            law_delete_keeps_shape(u, paths.last(), recorded_at_ms, context_id);
            law_delete_keeps_agreement(u, paths.last(), recorded_at_ms, context_id);
        }
    }
}

/// Noting a context and heartbeats touch no revision.
pub proof fn law_upkeep_keeps_shape(
    t: Tables,
    record: RecordView,
    seen_ms: i64,
    pid: i64,
    started_at_ms: i64,
    heartbeat_ms: i64,
    root: Seq<char>,
)
    requires
        well_shaped(t),
    ensures
        with_context(t, record, seen_ms) matches Ok((u, _)) ==> well_shaped(u),
        well_shaped(with_watcher(t, pid, started_at_ms, heartbeat_ms, root)),
{
    if with_context(t, record, seen_ms) is Ok {
        assert(with_context(t, record, seen_ms)->Ok_0.0.revisions == t.revisions);
    }
    assert(with_watcher(t, pid, started_at_ms, heartbeat_ms, root).revisions == t.revisions);
}

/// A pruning keeps a timeline well shaped.
pub proof fn law_pruning_keeps_shape(t: Tables, cutoff_ms: i64)
    requires
        t.wf(),
        well_shaped(t),
        prune_outcome(t, cutoff_ms) is Ok,
    ensures
        well_shaped(prune_outcome(t, cutoff_ms)->Ok_0.0),
{
    law_files_are_pruned_apart(t, cutoff_ms);
    let rs = t.revisions;
    let us = pruned(t, cutoff_ms).revisions;
    law_pruning_keeps_what_stays(t, cutoff_ms);
    lemma_pruned_ascends(t, cutoff_ms);
    assert forall|p: int| 0 <= p < us.len() implies is_shaped(#[trigger] us[p])
        && base_stays_in_file(us, us[p]) by {
        let i = choose|i: int|
            0 <= i < rs.len() && stays(rs, #[trigger] rs[i], cutoff_ms) && us[p] == remains(
                rs,
                rs[i],
                cutoff_ms,
            );
        assert(is_shaped(rs[i]));
        assert(is_shaped(settled(rs, rs[i], cutoff_ms)));
        assert(base_stays_in_file(rs, rs[i]));
        if us[p].base_revision_id is Some {
            let b = us[p].base_revision_id->Some_0;
            assert(rs[i].base_revision_id == Some(b));
            if revision_of(us, b) is Some {
                let x = revision_of(us, b)->Some_0;
                lemma_revision_of(us, b);
                let q = choose|q: int| 0 <= q < us.len() && #[trigger] us[q] == x;
                let k = choose|k: int|
                    0 <= k < rs.len() && stays(rs, #[trigger] rs[k], cutoff_ms) && us[q]
                        == remains(rs, rs[k], cutoff_ms);
                lemma_revision_at(rs, k);
            }
        }
    }
}

/// A timeline that is migrated from the first layout is well shaped.
pub proof fn law_migration_is_well_shaped(
    watcher: Option<WatcherView>,
    fs: Seq<LegacyFileView>,
    rs: Seq<LegacyRevisionView>,
    project_root: Seq<char>,
)
    requires
        migrated(only_watcher(watcher), fs, rs, project_root) is Ok,
    ensures
        well_shaped(migrated(only_watcher(watcher), fs, rs, project_root)->Ok_0),
{
    law_migration_leaves_full_copies(watcher, fs, rs, project_root);
    let t = migrated(only_watcher(watcher), fs, rs, project_root)->Ok_0;
    assert(all_stand_alone(t.revisions));
    assert forall|i: int| 0 <= i < t.revisions.len() implies is_shaped(#[trigger] t.revisions[i])
        && base_stays_in_file(t.revisions, t.revisions[i]) by {
        assert(stands_alone(t.revisions[i]));
    }
}

proof fn lemma_revisions_are_among(rs: Seq<RevisionView>, file_id: i64)
    ensures
        forall|r: RevisionView| #[trigger]
            revisions_of(rs, file_id).contains(r) ==> rs.contains(r) && r.file_id == file_id,
    decreases rs.len(),
{
    if rs.len() > 0 {
        let front = rs.drop_last();
        lemma_revisions_are_among(front, file_id);
        let all = revisions_of(rs, file_id);
        let rest = revisions_of(front, file_id);
        assert forall|r: RevisionView| #[trigger] all.contains(r) implies rs.contains(r)
            && r.file_id == file_id by {
            let k = choose|k: int| 0 <= k < all.len() && all[k] == r;
            if k < rest.len() {
                assert(rest.contains(rest[k]));
                assert(front.contains(r));
                let i = choose|i: int| 0 <= i < front.len() && front[i] == r;
                assert(rs[i] == r);
            } else {
                assert(rs[rs.len() - 1] == r);
            }
        }
    }
}

pub proof fn lemma_reversed_holds_the_same(rs: Seq<RevisionView>)
    ensures
        rs.reverse().to_multiset() == rs.to_multiset(),
    decreases rs.len(),
{
    broadcast use vstd::seq_lib::group_to_multiset_ensures;

    if rs.len() > 0 {
        let front = rs.drop_last();
        lemma_reversed_holds_the_same(front);
        assert(rs =~= front.push(rs.last()));
        assert(rs.reverse() =~= seq![rs.last()] + front.reverse());
        vstd::seq_lib::lemma_multiset_commutative(seq![rs.last()], front.reverse());
        assert(seq![rs.last()] =~= Seq::<RevisionView>::empty().push(rs.last()));
        assert(rs.reverse().to_multiset() =~= rs.to_multiset());
    } else {
        assert(rs.reverse() =~= rs);
    }
}

/// The history of a file has one entry for each of its revisions, newest first, those of one
/// time by their numbers; and where the
/// timeline is well shaped, an entry is an end exactly where it holds nothing, and exactly
/// where it has no size.
pub proof fn law_history_shows_every_revision(t: Tables, path: Seq<char>, context_id: i64)
    ensures
        ({
            let shown = history(t, path, context_id);
            match file_id_of(t.files, context_id, path) {
                None => shown.len() == 0,
                Some(file_id) => {
                    let own = revisions_of(t.revisions, file_id);
                    &&& shown.len() == own.len()
                    &&& newest_first(own).to_multiset() == own.to_multiset()
                    &&& forall|i: int|
                        0 <= i < shown.len() ==> #[trigger] shown[i] == history_entry(
                            newest_first(own)[i],
                        )
                    &&& forall|i: int, j: int|
                        0 <= i < j < own.len() ==> !newer(
                            #[trigger] newest_first(own)[j],
                            #[trigger] newest_first(own)[i],
                        )
                },
            }
        }),
        forall|i: int, j: int|
            0 <= i < j < history(t, path, context_id).len() ==> (#[trigger] history(
                t,
                path,
                context_id,
            )[i]).recorded_at_ms >= (#[trigger] history(t, path, context_id)[j]).recorded_at_ms,
        well_shaped(t) ==> forall|i: int|
            0 <= i < history(t, path, context_id).len() ==> entry_is_shaped(
                #[trigger] history(t, path, context_id)[i],
            ),
{
    if file_id_of(t.files, context_id, path) is Some {
        let file_id = file_id_of(t.files, context_id, path)->Some_0;
        let own = revisions_of(t.revisions, file_id);
        let old = oldest_first(own);
        let new = newest_first(own);
        let shown = history(t, path, context_id);
        law_oldest_first_sorts(own);
        lemma_revisions_are_among(t.revisions, file_id);
        lemma_reversed_holds_the_same(old);
        assert forall|i: int, j: int| 0 <= i < j < own.len() implies !newer(
            #[trigger] new[j],
            #[trigger] new[i],
        ) by {
            assert(new[i] == old[old.len() - 1 - i]);
            assert(new[j] == old[old.len() - 1 - j]);
        }
        assert forall|i: int, j: int| 0 <= i < j < shown.len() implies (
        #[trigger] shown[i]).recorded_at_ms >= (#[trigger] shown[j]).recorded_at_ms by {
            assert(new[i] == old[old.len() - 1 - i]);
            assert(new[j] == old[old.len() - 1 - j]);
        }
        if well_shaped(t) {
            assert forall|i: int| 0 <= i < shown.len() implies entry_is_shaped(
                #[trigger] shown[i],
            ) by {
                broadcast use vstd::seq_lib::group_to_multiset_ensures;

                let r = old[old.len() - 1 - i];
                assert(new[i] == r);
                assert(old.contains(r));
                assert(old.to_multiset().contains(r));
                assert(own.to_multiset().contains(r));
                assert(own.contains(r));
                let k = choose|k: int| 0 <= k < t.revisions.len() && t.revisions[k] == r;
                assert(is_shaped(t.revisions[k]));
            }
        }
    }
}

/// Whether an entry of a history is an end, holds nothing and has no size, or is none of
/// these.
pub open spec fn entry_is_shaped(e: HistoryEntry) -> bool {
    &&& (e.event_type == EventType::Delete) == (e.storage_kind == StorageKind::Absent)
    &&& (e.event_type == EventType::Delete) == (e.size_bytes is None)
}

} // verus!
