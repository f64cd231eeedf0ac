//! What the timeline tracks, and what a restore touches, lies inside the project.
use vstd::prelude::*;

use crate::path::{
    is_normal,
    joined_path,
    law_normal_paths_are_stable,
    law_normal_paths_lie_in_project,
    lies_in,
    normalized,
};
use crate::restore::{action_path, file_plan, law_plan_covers_every_path, project_plan};
use crate::snapshot::{
    unseen,
    with_observed,
    with_scan,
    with_scanned_files,
    with_unseen_gone,
    ObservedView,
    Scanned,
};
use crate::store::legacy_states::{
    law_migrated_files_read_as_before,
    legacy_paths_differ,
    path_is_new,
};
use crate::store::listing::{all_paths, live_paths, paths_in, with_deletes};
use crate::store::lookup::{file_id_of, lemma_file_id_of};
use crate::store::migrate::{by_path, migrated, only_watcher, LegacyFileView, LegacyRevisionView};
use crate::store::prune::prune_outcome;
use crate::store::record::{with_context, with_delete, with_text, with_watcher};
use crate::store::rows::{FileView, RecordView, WatcherView};
use crate::store::tables::Tables;
use crate::text::lemma_sorted_texts;

verus! {

/// Whether every tracked path is relative and made of names alone.
pub open spec fn tracks_inside(t: Tables) -> bool {
    forall|i: int| 0 <= i < t.files.len() ==> is_normal((#[trigger] t.files[i]).path)
}

// ---------------------------------------------------------------------------
// What every operation keeps
// ---------------------------------------------------------------------------

/// A timeline without files tracks nothing outside the project.
pub proof fn law_empty_tracks_inside(t: Tables)
    requires
        t.files.len() == 0,
    ensures
        tracks_inside(t),
{
}

proof fn lemma_text_tracks_inside(
    t: Tables,
    path: Seq<char>,
    content: Seq<char>,
    recorded_at_ms: i64,
    context_id: i64,
    interval: i64,
)
    requires
        tracks_inside(t),
        is_normal(path),
        with_text(t, path, content, recorded_at_ms, context_id, interval) is Ok,
    ensures
        tracks_inside(
            with_text(t, path, content, recorded_at_ms, context_id, interval)->Ok_0.0,
        ),
{
    let u = with_text(t, path, content, recorded_at_ms, context_id, interval)->Ok_0.0;
    assert forall|i: int| 0 <= i < u.files.len() implies is_normal(
        (#[trigger] u.files[i]).path,
    ) by {
        if i < t.files.len() {
            assert(is_normal(t.files[i].path));
        }
    }
}

proof fn lemma_delete_tracks_inside(
    t: Tables,
    path: Seq<char>,
    recorded_at_ms: i64,
    context_id: i64,
)
    requires
        tracks_inside(t),
        with_delete(t, path, recorded_at_ms, context_id) is Ok,
    ensures
        tracks_inside(with_delete(t, path, recorded_at_ms, context_id)->Ok_0.0),
{
    let u = with_delete(t, path, recorded_at_ms, context_id)->Ok_0.0;
    assert forall|i: int| 0 <= i < u.files.len() implies is_normal(
        (#[trigger] u.files[i]).path,
    ) by {
        assert(is_normal(t.files[i].path));
    }
}

proof fn lemma_deletes_track_inside(
    t: Tables,
    paths: Seq<Seq<char>>,
    recorded_at_ms: i64,
    context_id: i64,
)
    requires
        tracks_inside(t),
    ensures
        tracks_inside(with_deletes(t, paths, recorded_at_ms, context_id).0),
    decreases paths.len(),
{
    if paths.len() > 0 {
        lemma_deletes_track_inside(t, paths.drop_last(), recorded_at_ms, context_id);
        let (u, res) = with_deletes(t, paths.drop_last(), recorded_at_ms, context_id);
        if res is Ok && with_delete(u, paths.last(), recorded_at_ms, context_id) is Ok {
            lemma_delete_tracks_inside(u, paths.last(), recorded_at_ms, context_id);
        }
    }
}

/// What a changed path leads to is recorded inside the project, wherever it points.
pub proof fn law_changes_are_tracked_inside(
    t: Tables,
    root: Seq<char>,
    whole: Seq<char>,
    observed: ObservedView,
    recorded_at_ms: i64,
    context_id: i64,
    interval: i64,
)
    requires
        tracks_inside(t),
    ensures
        tracks_inside(
            with_observed(t, root, whole, observed, recorded_at_ms, context_id, interval).0,
        ),
{
    if normalized(root, whole) is Ok {
        law_normal_paths_are_stable(root, whole);
        let path = normalized(root, whole)->Ok_0;
        match observed {
            ObservedView::File(Some(text)) => {
                if with_text(t, path, text, recorded_at_ms, context_id, interval) is Ok {
                    lemma_text_tracks_inside(
                        t,
                        path,
                        text,
                        recorded_at_ms,
                        context_id,
                        interval,
                    );
                }
            },
            ObservedView::Missing => {
                if with_delete(t, path, recorded_at_ms, context_id) is Ok {
                    lemma_delete_tracks_inside(t, path, recorded_at_ms, context_id);
                    let u = with_delete(t, path, recorded_at_ms, context_id)->Ok_0.0;
                    lemma_deletes_track_inside(
                        u,
                        live_paths(u, context_id, path + seq!['/']),
                        recorded_at_ms,
                        context_id,
                    );
                }
            },
            _ => {},
        }
    }
}

proof fn lemma_found_files_track_inside(
    t: Tables,
    root: Seq<char>,
    files: Seq<Scanned>,
    recorded_at_ms: i64,
    context_id: i64,
    interval: i64,
)
    requires
        tracks_inside(t),
    ensures
        tracks_inside(
            with_scanned_files(t, root, files, recorded_at_ms, context_id, interval).0,
        ),
    decreases files.len(),
{
    if files.len() > 0 {
        let rest = files.drop_last();
        let file = files.last();
        lemma_found_files_track_inside(t, root, rest, recorded_at_ms, context_id, interval);
        let (u, res) = with_scanned_files(
            t,
            root,
            rest,
            recorded_at_ms,
            context_id,
            interval,
        );
        if res is Ok && normalized(root, file.path) is Ok {
            law_normal_paths_are_stable(root, file.path);
            let path = normalized(root, file.path)->Ok_0;
            if with_text(u, path, file.text, recorded_at_ms, context_id, interval) is Ok {
                lemma_text_tracks_inside(
                    u,
                    path,
                    file.text,
                    recorded_at_ms,
                    context_id,
                    interval,
                );
            }
        }
    }
}

/// A scan records inside the project, wherever the paths that it is given point.
pub proof fn law_scans_are_tracked_inside(
    t: Tables,
    root: Seq<char>,
    files: Seq<Scanned>,
    recorded_at_ms: i64,
    context_id: i64,
    interval: i64,
)
    requires
        tracks_inside(t),
    ensures
        tracks_inside(with_scan(t, root, files, recorded_at_ms, context_id, interval).0),
{
    lemma_found_files_track_inside(t, root, files, recorded_at_ms, context_id, interval);
    let (u, res) = with_scanned_files(t, root, files, recorded_at_ms, context_id, interval);
    if res is Ok {
        let seen = res->Ok_0.seen;
        lemma_deletes_track_inside(
            u,
            unseen(live_paths(u, context_id, Seq::empty()), seen),
            recorded_at_ms,
            context_id,
        );
        assert(tracks_inside(with_unseen_gone(u, seen, recorded_at_ms, context_id).0));
    }
}

/// Noting a context, pruning and heartbeats track no other file.
pub proof fn law_upkeep_tracks_no_other_file(
    t: Tables,
    record: RecordView,
    seen_ms: i64,
    cutoff_ms: i64,
    pid: i64,
    started_at_ms: i64,
    heartbeat_ms: i64,
    root: Seq<char>,
)
    requires
        tracks_inside(t),
    ensures
        with_context(t, record, seen_ms) is Ok ==> tracks_inside(
            with_context(t, record, seen_ms)->Ok_0.0,
        ),
        prune_outcome(t, cutoff_ms) is Ok ==> tracks_inside(
            prune_outcome(t, cutoff_ms)->Ok_0.0,
        ),
        tracks_inside(with_watcher(t, pid, started_at_ms, heartbeat_ms, root)),
{
    if with_context(t, record, seen_ms) is Ok {
        let u = with_context(t, record, seen_ms)->Ok_0.0;
        assert(u.files == t.files);
    }
    if prune_outcome(t, cutoff_ms) is Ok {
        assert(prune_outcome(t, cutoff_ms)->Ok_0.0.files == t.files);
    }
    assert(with_watcher(t, pid, started_at_ms, heartbeat_ms, root).files == t.files);
}

/// A timeline that is migrated from the first layout tracks the files that it had there.
pub proof fn law_migration_tracks_inside(
    watcher: Option<WatcherView>,
    fs: Seq<LegacyFileView>,
    rs: Seq<LegacyRevisionView>,
    project_root: Seq<char>,
)
    requires
        legacy_paths_differ(fs),
        forall|i: int| 0 <= i < fs.len() ==> is_normal((#[trigger] fs[i]).path),
        migrated(only_watcher(watcher), by_path(fs), rs, project_root) is Ok,
    ensures
        tracks_inside(migrated(only_watcher(watcher), by_path(fs), rs, project_root)->Ok_0),
{
    let t = migrated(only_watcher(watcher), by_path(fs), rs, project_root)->Ok_0;
    law_migrated_files_read_as_before(watcher, fs, rs, project_root);
    assert forall|i: int| 0 <= i < t.files.len() implies is_normal(
        (#[trigger] t.files[i]).path,
    ) by {
        let f = t.files[i];
        if forall|k: int| 0 <= k < fs.len() ==> (#[trigger] fs[k]).path != f.path {
            assert(path_is_new(t, f.path));
            lemma_file_id_of(t.files, f.context_id, f.path);
            assert(file_id_of(t.files, f.context_id, f.path) is None);
        }
    }
}

// ---------------------------------------------------------------------------
// What a restore touches
// ---------------------------------------------------------------------------

/// A plan for one file acts on a file inside the project. An input that points elsewhere
/// gives no plan.
pub proof fn law_restored_file_lies_in_project(
    t: Tables,
    root: Seq<char>,
    file: Seq<char>,
    at_ms: i64,
    context_id: Option<i64>,
)
    ensures
        file_plan(t, root, file, at_ms, context_id) matches Ok(plan) ==> plan.len() == 1
            && lies_in(root, action_path(plan[0])),
        !lies_in(root, joined_path(root, file)) ==> file_plan(
            t,
            root,
            file,
            at_ms,
            context_id,
        ) is Err,
{
}

proof fn lemma_listed_paths_are_tracked(fs: Seq<FileView>, context_id: i64)
    ensures
        forall|k: int|
            0 <= k < paths_in(fs, context_id).len() ==> exists|i: int|
                0 <= i < fs.len() && (#[trigger] fs[i]).path == #[trigger] paths_in(
                    fs,
                    context_id,
                )[k],
    decreases fs.len(),
{
    if fs.len() > 0 {
        let rest = fs.drop_last();
        lemma_listed_paths_are_tracked(rest, context_id);
        let all = paths_in(fs, context_id);
        let before = paths_in(rest, context_id);
        assert forall|k: int| 0 <= k < all.len() implies exists|i: int|
            0 <= i < fs.len() && (#[trigger] fs[i]).path == #[trigger] all[k] by {
            if k < before.len() {
                assert(all[k] == before[k]);
                let i = choose|i: int|
                    0 <= i < rest.len() && (#[trigger] rest[i]).path == before[k];
                assert(fs[i] == rest[i]);
            } else {
                assert(fs[fs.len() - 1].path == all[k]);
            }
        }
    }
}

/// A plan for the whole project acts on files inside the project alone.
pub proof fn law_restored_project_lies_in_project(
    t: Tables,
    root: Seq<char>,
    at_ms: i64,
    context_id: Option<i64>,
)
    requires
        tracks_inside(t),
        project_plan(t, root, at_ms, context_id) is Ok,
    ensures
        forall|i: int|
            0 <= i < project_plan(t, root, at_ms, context_id)->Ok_0.len() ==> lies_in(
                root,
                action_path(#[trigger] project_plan(t, root, at_ms, context_id)->Ok_0[i]),
            ),
{
    if context_id is Some {
        let id = context_id->Some_0;
        let paths = all_paths(t, id);
        let plan = project_plan(t, root, at_ms, context_id)->Ok_0;
        law_plan_covers_every_path(t, root, paths, at_ms, id);
        lemma_sorted_texts(paths_in(t.files, id));
        lemma_listed_paths_are_tracked(t.files, id);
        assert forall|i: int| 0 <= i < plan.len() implies lies_in(
            root,
            action_path(#[trigger] plan[i]),
        ) by {
            assert(paths.contains(paths[i]));
            let listed = paths_in(t.files, id);
            let k = choose|k: int| 0 <= k < listed.len() && listed[k] == paths[i];
            assert(listed[k] == paths[i]);
            assert(is_normal(paths[i]));
            law_normal_paths_lie_in_project(root, paths[i]);
        }
    }
}

} // verus!
