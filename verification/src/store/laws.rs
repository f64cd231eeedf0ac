//! What holds of the store as a whole.
use vstd::prelude::*;
use vstd::utf8::*;

use crate::delta::{patch_outcome, patch_text, DeltaError};
use crate::git::{git_runtime, local_runtime, GitContextView, RuntimeView};
use crate::store::listing::{before_nul, covers, is_live, live_paths, live_paths_in, under};
use crate::store::lookup::{
    context_id_of,
    file_id_of,
    latest,
    latest_at,
    lemma_context_id_of,
    lemma_file_id_of,
    lemma_latest_at,
    lemma_latest_is,
    state_at,
};
use crate::store::newest::{lemma_delete_stays_recorded, lemma_text_stays_recorded};
use crate::store::record::{
    kept_as_patch,
    lemma_seen_keeps_numbers,
    patch_start,
    unchanged,
    with_context,
    with_context_seen,
    with_delete,
    with_file,
    with_file_seen,
    with_text,
    with_watcher,
};
use crate::store::rows::{record_of, EventType, FileView, RecordView, RevisionView};
use crate::store::sound::{
    all_based,
    above_all,
    digest_tells,
    ends_at,
    lemma_content_push,
    lemma_file_times,
    lemma_files_differ,
    lemma_no_revision_of_new_file,
    lemma_pushed_is_latest,
    lemma_sound_push,
    lemma_text_row_reads_back,
    lemma_with_file_finds,
    nothing_after,
    reads_back,
    recorded_by,
    sound,
    newest_reads_back,
};
use crate::store::tables::{StoreError, Tables};
use crate::text::{lemma_position_of, lemma_position_unique, lemma_sorted_texts, position_of};

verus! {

/// The newest revision of the file under a path.
pub open spec fn newest_of(t: Tables, path: Seq<char>, context_id: i64) -> Option<RevisionView> {
    match file_id_of(t.files, context_id, path) {
        Some(file_id) => latest(t.revisions, file_id),
        None => None,
    }
}

/// Whether the patch that would record new content, if any, leads to that content.
pub open spec fn patch_leads_to(
    t: Tables,
    path: Seq<char>,
    content: Seq<char>,
    context_id: i64,
    interval: i64,
) -> bool {
    let newest = newest_of(t, path, context_id);
    kept_as_patch(newest, interval) ==> {
        let previous = patch_start(t.revisions, newest, interval)->Ok_0;
        patch_outcome(previous, encode_utf8(patch_text(previous, content))) == Ok::<
            Seq<char>,
            DeltaError,
        >(content)
    }
}

/// What recording a content keeps: the states of all other paths and contexts, and of
/// this path before that time.
pub proof fn law_text_keeps_other_states(
    t: Tables,
    path: Seq<char>,
    content: Seq<char>,
    recorded_at_ms: i64,
    context_id: i64,
    interval: i64,
    other_path: Seq<char>,
    other_context: i64,
    at_ms: i64,
)
    requires
        t.wf(),
        with_text(t, path, content, recorded_at_ms, context_id, interval) is Ok,
        other_path != path || other_context != context_id || at_ms < recorded_at_ms,
    ensures
        state_at(
            with_text(t, path, content, recorded_at_ms, context_id, interval)->Ok_0.0,
            other_path,
            at_ms,
            other_context,
        ) == state_at(t, other_path, at_ms, other_context),
{
    let seen = with_context_seen(t, context_id, recorded_at_ms);
    lemma_seen_keeps_numbers(t, context_id, recorded_at_ms);
    lemma_with_file_finds(seen, context_id, path, recorded_at_ms);
    let (u, file_id) = with_file(seen, context_id, path, recorded_at_ms)->Ok_0;
    let (v, added) = with_text(t, path, content, recorded_at_ms, context_id, interval)->Ok_0;
    let rs = t.revisions;
    assert(u.revisions == rs);
    let found = file_id_of(t.files, other_context, other_path);
    assert(v.files == u.files);
    if other_path == path && other_context == context_id {
        if found is None {
            lemma_no_revision_of_new_file(t, file_id, at_ms);
        }
    } else {
        if found is Some {
            lemma_files_differ(t, other_context, other_path, context_id, path);
            lemma_found_has_row(t, other_context, other_path);
        }
    }
    if added {
        let n = v.revisions.last();
        assert(v.revisions == rs.push(n));
        lemma_state_push(t, rs, n, file_id, other_path, other_context, at_ms, v);
    }
}

proof fn lemma_found_has_row(t: Tables, context_id: i64, path: Seq<char>)
    requires
        t.wf(),
        file_id_of(t.files, context_id, path) is Some,
    ensures
        file_id_of(t.files, context_id, path)->Some_0 <= t.last_file_id,
{
    lemma_file_id_of(t.files, context_id, path);
    let id = file_id_of(t.files, context_id, path)->Some_0;
    let i = choose|i: int|
        0 <= i < t.files.len() && (#[trigger] t.files[i]).id == id && t.files[i].context_id
            == context_id && t.files[i].path == path;
    assert(t.files[i].id <= t.last_file_id);
}

/// A new revision of one file, or at one time, leaves what is read of another file, or
/// at an earlier time.
pub proof fn lemma_state_push(
    t: Tables,
    rs: Seq<RevisionView>,
    n: RevisionView,
    file_id: i64,
    path: Seq<char>,
    context_id: i64,
    at_ms: i64,
    v: Tables,
)
    requires
        t.wf(),
        rs == t.revisions,
        n.file_id == file_id,
        n.id > t.last_revision_id,
        v.revisions == rs.push(n),
        ({
            let before = file_id_of(t.files, context_id, path);
            let after = file_id_of(v.files, context_id, path);
            ||| after == before && (before == Some(file_id) ==> n.recorded_at_ms > at_ms)
            ||| before is None && after == Some(file_id) && n.recorded_at_ms > at_ms && latest_at(
                rs,
                file_id,
                at_ms,
            ) is None
        }),
    ensures
        state_at(v, path, at_ms, context_id) == state_at(t, path, at_ms, context_id),
{
    assert(rs.push(n).drop_last() =~= rs);
    assert(above_all(rs, n.id));
    let after = file_id_of(v.files, context_id, path);
    if after is Some {
        let f = after->Some_0;
        assert(latest_at(v.revisions, f, at_ms) == latest_at(rs, f, at_ms));
        lemma_latest_at(rs, f, at_ms);
        if latest_at(rs, f, at_ms) is Some {
            let r = latest_at(rs, f, at_ms)->Some_0;
            let i = choose|i: int| 0 <= i < rs.len() && #[trigger] rs[i] == r;
            assert(rs[i].id < n.id);
            assert(all_based(rs));
            lemma_content_push(rs, n, i);
        }
    }
}

/// What recording an end keeps: the states of all other paths and contexts, and of this
/// path before that time.
pub proof fn law_delete_keeps_other_states(
    t: Tables,
    path: Seq<char>,
    recorded_at_ms: i64,
    context_id: i64,
    other_path: Seq<char>,
    other_context: i64,
    at_ms: i64,
)
    requires
        t.wf(),
        with_delete(t, path, recorded_at_ms, context_id) is Ok,
        other_path != path || other_context != context_id || at_ms < recorded_at_ms,
    ensures
        state_at(
            with_delete(t, path, recorded_at_ms, context_id)->Ok_0.0,
            other_path,
            at_ms,
            other_context,
        ) == state_at(t, other_path, at_ms, other_context),
{
    let seen = with_context_seen(t, context_id, recorded_at_ms);
    let (w, added) = with_delete(t, path, recorded_at_ms, context_id)->Ok_0;
    if file_id_of(t.files, context_id, path) is Some {
        let file_id = file_id_of(t.files, context_id, path)->Some_0;
        let v = with_file_seen(seen, file_id, recorded_at_ms);
        lemma_file_times(t.files, v.files, other_context, other_path);
        if other_path != path || other_context != context_id {
            lemma_files_differ(t, context_id, path, other_context, other_path);
        }
        if added {
            let n = w.revisions.last();
            assert(w.revisions == t.revisions.push(n));
            lemma_state_push(
                t,
                t.revisions,
                n,
                file_id,
                other_path,
                other_context,
                at_ms,
                w,
            );
        }
    }
}

/// A content for which a revision was added is what is read from then on, unless something
/// was recorded for the file at a later time already; and a sound timeline stays sound.
pub proof fn law_text_is_read_back(
    t: Tables,
    path: Seq<char>,
    content: Seq<char>,
    recorded_at_ms: i64,
    context_id: i64,
    interval: i64,
)
    requires
        t.wf(),
        with_text(t, path, content, recorded_at_ms, context_id, interval) is Ok,
        with_text(t, path, content, recorded_at_ms, context_id, interval)->Ok_0.1,
        patch_leads_to(t, path, content, context_id, interval),
    ensures
        ({
            let u = with_text(t, path, content, recorded_at_ms, context_id, interval)->Ok_0.0;
            &&& sound(t) ==> sound(u)
            &&& recorded_by(t, path, context_id, recorded_at_ms) ==> forall|at_ms: i64|
                at_ms >= recorded_at_ms ==> #[trigger] state_at(u, path, at_ms, context_id) == Ok::<
                    Option<Seq<char>>,
                    StoreError,
                >(Some(content))
        }),
{
    let seen = with_context_seen(t, context_id, recorded_at_ms);
    lemma_seen_keeps_numbers(t, context_id, recorded_at_ms);
    lemma_with_file_finds(seen, context_id, path, recorded_at_ms);
    let (u, file_id) = with_file(seen, context_id, path, recorded_at_ms)->Ok_0;
    let (v, added) = with_text(t, path, content, recorded_at_ms, context_id, interval)->Ok_0;
    let rs = t.revisions;
    assert(u.revisions == rs);
    if file_id_of(t.files, context_id, path) is None {
        lemma_no_revision_of_new_file(t, file_id, i64::MAX);
    }
    let newest = latest(rs, file_id);
    assert(newest == newest_of(t, path, context_id));
    let n = v.revisions.last();
    let previous = patch_start(rs, newest, interval)->Ok_0;
    assert(v.revisions == rs.push(n));
    assert(n.id == t.last_revision_id + 1);
    assert(all_based(rs));
    lemma_text_row_reads_back(rs, n, previous, content, interval, t.last_revision_id);
    if sound(t) {
        lemma_sound_push(t, n);
        assert(sound(v));
    }
    if recorded_by(t, path, context_id, recorded_at_ms) {
        assert forall|at_ms: i64| at_ms >= recorded_at_ms implies #[trigger] state_at(
            v,
            path,
            at_ms,
            context_id,
        ) == Ok::<Option<Seq<char>>, StoreError>(Some(content)) by {
            assert(above_all(rs, n.id));
            assert forall|i: int|
                0 <= i < rs.len() && (#[trigger] rs[i]).file_id
                    == n.file_id implies rs[i].recorded_at_ms <= n.recorded_at_ms by {
                lemma_latest_at(rs, file_id, i64::MAX);
            }
            lemma_pushed_is_latest(rs, n, at_ms);
        }
    }
}

/// A content that the newest revision was taken to hold already, by its digest, is what is
/// read from then on, unless something was recorded for the file at a later time already;
/// and a sound timeline stays sound. The newest revision has to give back the content whose
/// digest it carries, and the digest has to tell that content from the new one.
pub proof fn law_known_text_is_read_back(
    t: Tables,
    path: Seq<char>,
    content: Seq<char>,
    recorded_at_ms: i64,
    context_id: i64,
    interval: i64,
)
    requires
        t.wf(),
        with_text(t, path, content, recorded_at_ms, context_id, interval) is Ok,
        !with_text(t, path, content, recorded_at_ms, context_id, interval)->Ok_0.1,
    ensures
        ({
            let u = with_text(t, path, content, recorded_at_ms, context_id, interval)->Ok_0.0;
            &&& sound(t) ==> sound(u)
            &&& recorded_by(t, path, context_id, recorded_at_ms) && newest_reads_back(
                t,
                path,
                context_id,
            ) && digest_tells(
                t,
                path,
                context_id,
                content,
            ) ==> forall|at_ms: i64|
                at_ms >= recorded_at_ms ==> #[trigger] state_at(u, path, at_ms, context_id) == Ok::<
                    Option<Seq<char>>,
                    StoreError,
                >(Some(content))
        }),
{
    let seen = with_context_seen(t, context_id, recorded_at_ms);
    lemma_seen_keeps_numbers(t, context_id, recorded_at_ms);
    lemma_with_file_finds(seen, context_id, path, recorded_at_ms);
    let (u, file_id) = with_file(seen, context_id, path, recorded_at_ms)->Ok_0;
    let (v, added) = with_text(t, path, content, recorded_at_ms, context_id, interval)->Ok_0;
    let rs = t.revisions;
    assert(u.revisions == rs);
    if file_id_of(t.files, context_id, path) is None {
        lemma_no_revision_of_new_file(t, file_id, i64::MAX);
    }
    let newest = latest(rs, file_id);
    assert(v.revisions == rs);
    if sound(t) {
        assert forall|i: int|
            0 <= i < v.revisions.len() && (#[trigger] v.revisions[i]).event_type
                != EventType::Delete implies reads_back(v.revisions, v.revisions[i]) by {
            assert(t.revisions[i].event_type != EventType::Delete);
        }
    }
    if recorded_by(t, path, context_id, recorded_at_ms) && newest_reads_back(
        t,
        path,
        context_id,
    ) && digest_tells(
        t,
        path,
        context_id,
        content,
    ) {
        let r = newest->Some_0;
        lemma_latest_at(rs, file_id, i64::MAX);
        let p = choose|i: int| 0 <= i < rs.len() && #[trigger] rs[i] == r;
        assert forall|at_ms: i64| at_ms >= recorded_at_ms implies #[trigger] state_at(
            v,
            path,
            at_ms,
            context_id,
        ) == Ok::<Option<Seq<char>>, StoreError>(Some(content)) by {
            assert(rs[p].recorded_at_ms <= recorded_at_ms);
            lemma_latest_is(rs, file_id, at_ms, p);
        }
    }
}

/// The newest revision of the file that a path leads to, or would lead to.
pub proof fn lemma_same_newest(t: Tables, path: Seq<char>, context_id: i64, file_id: i64)
    requires
        t.wf(),
        match file_id_of(t.files, context_id, path) {
            Some(id) => file_id == id,
            None => file_id > t.last_file_id,
        },
    ensures
        newest_of(t, path, context_id) == latest(t.revisions, file_id),
{
    if file_id_of(t.files, context_id, path) is None {
        lemma_no_revision_of_new_file(t, file_id, i64::MAX);
    }
}

/// After a recorded end the file is not there, unless something was recorded for it at a
/// later time already; and a sound timeline stays sound.
pub proof fn law_delete_is_read_back(
    t: Tables,
    path: Seq<char>,
    recorded_at_ms: i64,
    context_id: i64,
)
    requires
        t.wf(),
        with_delete(t, path, recorded_at_ms, context_id) is Ok,
    ensures
        ({
            let u = with_delete(t, path, recorded_at_ms, context_id)->Ok_0.0;
            &&& sound(t) ==> sound(u)
            &&& recorded_by(t, path, context_id, recorded_at_ms) ==> forall|at_ms: i64|
                at_ms >= recorded_at_ms ==> #[trigger] state_at(u, path, at_ms, context_id) == Ok::<
                    Option<Seq<char>>,
                    StoreError,
                >(None)
        }),
{
    let seen = with_context_seen(t, context_id, recorded_at_ms);
    let (w, added) = with_delete(t, path, recorded_at_ms, context_id)->Ok_0;
    let rs = t.revisions;
    if file_id_of(t.files, context_id, path) is Some {
        let file_id = file_id_of(t.files, context_id, path)->Some_0;
        let v = with_file_seen(seen, file_id, recorded_at_ms);
        lemma_file_times(t.files, v.files, context_id, path);
        if added {
            let n = w.revisions.last();
            assert(w.revisions == rs.push(n));
            if sound(t) {
                lemma_sound_push(t, n);
            }
            if recorded_by(t, path, context_id, recorded_at_ms) {
                assert forall|at_ms: i64| at_ms >= recorded_at_ms implies #[trigger] state_at(
                    w,
                    path,
                    at_ms,
                    context_id,
                ) == Ok::<Option<Seq<char>>, StoreError>(None) by {
                    assert(above_all(rs, n.id));
                    lemma_pushed_is_latest(rs, n, at_ms);
                }
            }
        } else {
            assert(w.revisions == rs);
            if recorded_by(t, path, context_id, recorded_at_ms) {
                assert forall|at_ms: i64| at_ms >= recorded_at_ms implies #[trigger] state_at(
                    w,
                    path,
                    at_ms,
                    context_id,
                ) == Ok::<Option<Seq<char>>, StoreError>(None) by {
                    lemma_latest_at(rs, file_id, i64::MAX);
                    lemma_latest_at(rs, file_id, at_ms);
                    if latest(rs, file_id) is Some {
                        let r = latest(rs, file_id)->Some_0;
                        let p = choose|i: int| 0 <= i < rs.len() && #[trigger] rs[i] == r;
                        assert(rs[p].recorded_at_ms <= recorded_at_ms);
                        lemma_latest_is(rs, file_id, at_ms, p);
                    } else if latest_at(rs, file_id, at_ms) is Some {
                        let r = latest_at(rs, file_id, at_ms)->Some_0;
                        let p = choose|i: int| 0 <= i < rs.len() && #[trigger] rs[i] == r;
                        assert(rs[p].file_id == file_id);
                    }
                }
            }
        }
        if sound(t) && !added {
            assert forall|i: int|
                0 <= i < w.revisions.len() && (#[trigger] w.revisions[i]).event_type
                    != EventType::Delete implies reads_back(w.revisions, w.revisions[i]) by {
                assert(t.revisions[i].event_type != EventType::Delete);
            }
        }
    } else {
        assert(w == seen);
        if sound(t) {
            assert forall|i: int|
                0 <= i < w.revisions.len() && (#[trigger] w.revisions[i]).event_type
                    != EventType::Delete implies reads_back(w.revisions, w.revisions[i]) by {
                assert(t.revisions[i].event_type != EventType::Delete);
            }
        }
    }
}

/// The same content recorded a second time, not before the first, takes no new revision,
/// while row numbers are left.
pub proof fn law_same_text_is_not_recorded_twice(
    t: Tables,
    path: Seq<char>,
    content: Seq<char>,
    first_ms: i64,
    second_ms: i64,
    context_id: i64,
    interval: i64,
)
    requires
        t.wf(),
        with_text(t, path, content, first_ms, context_id, interval) is Ok,
        t.last_file_id + 1 < i64::MAX,
        recorded_by(t, path, context_id, first_ms),
    ensures
        ({
            let u = with_text(t, path, content, first_ms, context_id, interval)->Ok_0.0;
            &&& with_text(u, path, content, second_ms, context_id, interval) is Ok
            &&& !with_text(u, path, content, second_ms, context_id, interval)->Ok_0.1
            &&& with_text(u, path, content, second_ms, context_id, interval)->Ok_0.0.revisions
                == u.revisions
        }),
{
    let seen = with_context_seen(t, context_id, first_ms);
    lemma_seen_keeps_numbers(t, context_id, first_ms);
    lemma_with_file_finds(seen, context_id, path, first_ms);
    let (u, file_id) = with_file(seen, context_id, path, first_ms)->Ok_0;
    let (v, added) = with_text(t, path, content, first_ms, context_id, interval)->Ok_0;
    let rs = t.revisions;
    if file_id_of(t.files, context_id, path) is None {
        lemma_no_revision_of_new_file(t, file_id, i64::MAX);
    }
    assert(v.files == u.files);
    if added {
        let n = v.revisions.last();
        assert(v.revisions == rs.push(n));
        assert(above_all(rs, n.id));
        lemma_latest_at(rs, file_id, i64::MAX);
        lemma_pushed_is_latest(rs, n, i64::MAX);
    }
    assert(unchanged(latest(v.revisions, file_id), content));
    lemma_seen_keeps_numbers(v, context_id, second_ms);
}

/// A context that was noted is found under the number that it got, and noting it again
/// gives that number, while row numbers are left.
pub proof fn law_context_number_is_stable(t: Tables, record: RecordView, first_ms: i64, second_ms: i64)
    requires
        t.wf(),
        t.last_context_id + 1 < i64::MAX,
        with_context(t, record, first_ms) is Ok,
    ensures
        ({
            let (u, id) = with_context(t, record, first_ms)->Ok_0;
            &&& context_id_of(u.contexts, record.fingerprint) == Some(id)
            &&& with_context(u, record, second_ms) is Ok
            &&& with_context(u, record, second_ms)->Ok_0.1 == id
        }),
{
    let (u, id) = with_context(t, record, first_ms)->Ok_0;
    lemma_noted_context_is_found(t, record, first_ms);
}

/// A context that was noted is resolved to the number that it got, whether it is that of a
/// project outside Git or of a Git worktree.
pub proof fn law_noted_context_is_resolved(t: Tables, context: RuntimeView, seen_ms: i64)
    requires
        t.wf(),
        context == local_runtime(context.project_root) || exists|git: GitContextView|
            context == git_runtime(git),
        with_context(t, record_of(context.project_root, context.git), seen_ms) is Ok,
    ensures
        ({
            let (u, id) = with_context(
                t,
                record_of(context.project_root, context.git),
                seen_ms,
            )->Ok_0;
            context_id_of(u.contexts, context.fingerprint) == Some(id)
        }),
{
    lemma_noted_context_is_found(t, record_of(context.project_root, context.git), seen_ms);
}

/// A context that was noted is found under its number, every other one as before.
pub proof fn lemma_noted_context_is_found(t: Tables, record: RecordView, seen_ms: i64)
    requires
        t.wf(),
        with_context(t, record, seen_ms) is Ok,
    ensures
        ({
            let (u, id) = with_context(t, record, seen_ms)->Ok_0;
            &&& context_id_of(u.contexts, record.fingerprint) == Some(id)
            &&& forall|other: Seq<char>|
                other != record.fingerprint ==> #[trigger] context_id_of(u.contexts, other)
                    == context_id_of(t.contexts, other)
        }),
{
    let (u, id) = with_context(t, record, seen_ms)->Ok_0;
    match context_id_of(t.contexts, record.fingerprint) {
        None => {
            assert(u.contexts.drop_last() =~= t.contexts);
        },
        Some(_) => {
            lemma_context_id_of(t.contexts, record.fingerprint);
            let at = choose|i: int|
                0 <= i < t.contexts.len() && (#[trigger] t.contexts[i]).id == id
                    && t.contexts[i].record.fingerprint == record.fingerprint;
            assert forall|i: int| 0 <= i < t.contexts.len() implies (#[trigger] u.contexts[i]).id
                == t.contexts[i].id && u.contexts[i].record.fingerprint
                == t.contexts[i].record.fingerprint by {
                if i < at {
                    assert(t.contexts[i].id < t.contexts[at].id);
                } else if at < i {
                    assert(t.contexts[at].id < t.contexts[i].id);
                }
            }
            lemma_context_times(t.contexts, u.contexts, record.fingerprint);
            assert forall|other: Seq<char>|
                other != record.fingerprint implies #[trigger] context_id_of(u.contexts, other)
                == context_id_of(t.contexts, other) by {
                lemma_context_times(t.contexts, u.contexts, other);
            }
        },
    }
}

proof fn lemma_context_times(
    before: Seq<crate::store::rows::ContextView>,
    after: Seq<crate::store::rows::ContextView>,
    fingerprint: Seq<char>,
)
    requires
        before.len() == after.len(),
        forall|i: int|
            0 <= i < before.len() ==> (#[trigger] after[i]).id == before[i].id
                && after[i].record.fingerprint == before[i].record.fingerprint,
    ensures
        context_id_of(after, fingerprint) == context_id_of(before, fingerprint),
    decreases before.len(),
{
    if before.len() > 0 {
        assert forall|i: int| 0 <= i < before.drop_last().len() implies (
        #[trigger] after.drop_last()[i]).id == before.drop_last()[i].id
            && after.drop_last()[i].record.fingerprint
            == before.drop_last()[i].record.fingerprint by {
            assert(after[i].id == before[i].id);
        }
        lemma_context_times(before.drop_last(), after.drop_last(), fingerprint);
        assert(after[after.len() - 1].id == before[before.len() - 1].id);
    }
}

/// Contexts with different fingerprints get different numbers.
pub proof fn law_contexts_are_kept_apart(
    t: Tables,
    a: RecordView,
    b: RecordView,
    first_ms: i64,
    second_ms: i64,
)
    requires
        t.wf(),
        a.fingerprint != b.fingerprint,
        with_context(t, a, first_ms) is Ok,
        with_context(with_context(t, a, first_ms)->Ok_0.0, b, second_ms) is Ok,
    ensures
        with_context(t, a, first_ms)->Ok_0.1 != with_context(
            with_context(t, a, first_ms)->Ok_0.0,
            b,
            second_ms,
        )->Ok_0.1,
{
    let (u, id) = with_context(t, a, first_ms)->Ok_0;
    lemma_noted_context_is_found(t, a, first_ms);
    lemma_context_id_of(u.contexts, a.fingerprint);
    lemma_context_id_of(u.contexts, b.fingerprint);
    let i = choose|i: int|
        0 <= i < u.contexts.len() && (#[trigger] u.contexts[i]).id == id
            && u.contexts[i].record.fingerprint == a.fingerprint;
    lemma_context_numbers(t, a, first_ms);
    if context_id_of(u.contexts, b.fingerprint) is Some {
        let other = context_id_of(u.contexts, b.fingerprint)->Some_0;
        let j = choose|j: int|
            0 <= j < u.contexts.len() && (#[trigger] u.contexts[j]).id == other
                && u.contexts[j].record.fingerprint == b.fingerprint;
        if i < j {
            assert(u.contexts[i].id < u.contexts[j].id);
        } else if j < i {
            assert(u.contexts[j].id < u.contexts[i].id);
        }
    } else {
        assert(u.contexts[i].id <= u.last_context_id);
    }
}

proof fn lemma_context_numbers(t: Tables, record: RecordView, seen_ms: i64)
    requires
        t.wf(),
        with_context(t, record, seen_ms) is Ok,
    ensures
        crate::store::tables::context_ids_ascend(
            with_context(t, record, seen_ms)->Ok_0.0.contexts,
            with_context(t, record, seen_ms)->Ok_0.0.last_context_id,
        ),
{
    let (u, id) = with_context(t, record, seen_ms)->Ok_0;
    match context_id_of(t.contexts, record.fingerprint) {
        None => {},
        Some(_) => {
            assert forall|i: int| 0 <= i < u.contexts.len() implies (#[trigger] u.contexts[i]).id
                == t.contexts[i].id by {}
        },
    }
}

/// Noting a context changes no state, and keeps a timeline sound.
pub proof fn law_noting_a_context_keeps_states(
    t: Tables,
    record: RecordView,
    seen_ms: i64,
    path: Seq<char>,
    at_ms: i64,
    context_id: i64,
)
    requires
        with_context(t, record, seen_ms) is Ok,
    ensures
        ({
            let u = with_context(t, record, seen_ms)->Ok_0.0;
            &&& state_at(u, path, at_ms, context_id) == state_at(t, path, at_ms, context_id)
            &&& sound(u) == sound(t)
        }),
{
    let u = with_context(t, record, seen_ms)->Ok_0.0;
    assert(u.files == t.files);
    assert(u.revisions == t.revisions);
}

/// A watcher's sign of life changes no state, and keeps a timeline sound.
pub proof fn law_heartbeats_keep_states(
    t: Tables,
    pid: i64,
    started_at_ms: i64,
    heartbeat_ms: i64,
    root: Seq<char>,
    path: Seq<char>,
    at_ms: i64,
    context_id: i64,
)
    ensures
        ({
            let u = with_watcher(t, pid, started_at_ms, heartbeat_ms, root);
            &&& state_at(u, path, at_ms, context_id) == state_at(t, path, at_ms, context_id)
            &&& sound(u) == sound(t)
        }),
{
    let u = with_watcher(t, pid, started_at_ms, heartbeat_ms, root);
    assert(u.files == t.files);
    assert(u.revisions == t.revisions);
}

/// What is recorded at a time leaves nothing recorded after it.
pub proof fn lemma_recording_leaves_nothing_after(
    t: Tables,
    path: Seq<char>,
    content: Seq<char>,
    recorded_at_ms: i64,
    context_id: i64,
    interval: i64,
)
    requires
        t.wf(),
        nothing_after(t, context_id, recorded_at_ms),
    ensures
        with_text(t, path, content, recorded_at_ms, context_id, interval) matches Ok((u, _))
            ==> nothing_after(u, context_id, recorded_at_ms),
        with_delete(t, path, recorded_at_ms, context_id) matches Ok((u, _)) ==> nothing_after(u, context_id, recorded_at_ms),
{
    if with_text(t, path, content, recorded_at_ms, context_id, interval) is Ok {
        let (u, added) = with_text(t, path, content, recorded_at_ms, context_id, interval)->Ok_0;
        assert forall|other: Seq<char>| #[trigger] recorded_by(
            u,
            other,
            context_id,
            recorded_at_ms,
        ) by {
            assert(recorded_by(t, other, context_id, recorded_at_ms));
            lemma_text_stays_recorded(
                t,
                path,
                content,
                recorded_at_ms,
                context_id,
                interval,
                other,
            );
        }
    }
    if with_delete(t, path, recorded_at_ms, context_id) is Ok {
        let (u, added) = with_delete(t, path, recorded_at_ms, context_id)->Ok_0;
        assert forall|other: Seq<char>| #[trigger] recorded_by(
            u,
            other,
            context_id,
            recorded_at_ms,
        ) by {
            assert(recorded_by(t, other, context_id, recorded_at_ms));
            lemma_delete_stays_recorded(t, path, recorded_at_ms, context_id, other);
        }
    }
}

/// A file that is there is listed under its path.
pub proof fn lemma_live_path_is_listed(
    fs: Seq<FileView>,
    rs: Seq<RevisionView>,
    context_id: i64,
    prefix: Seq<char>,
    at: int,
)
    requires
        0 <= at < fs.len(),
        fs[at].context_id == context_id,
        is_live(rs, fs[at]),
        under(fs[at].path, prefix),
    ensures
        live_paths_in(fs, rs, context_id, prefix).contains(fs[at].path),
    decreases fs.len(),
{
    let all = live_paths_in(fs, rs, context_id, prefix);
    if at < fs.len() - 1 {
        let rest = fs.drop_last();
        lemma_live_path_is_listed(rest, rs, context_id, prefix, at);
        let before = live_paths_in(rest, rs, context_id, prefix);
        let k = choose|k: int| 0 <= k < before.len() && before[k] == fs[at].path;
        assert(all[k] == fs[at].path);
    } else {
        assert(all[all.len() - 1] == fs[at].path);
    }
}

/// A file under a prefix that is not listed as there is absent from the time of the last
/// revision on.
pub proof fn lemma_unlisted_path_is_absent(
    t: Tables,
    prefix: Seq<char>,
    path: Seq<char>,
    recorded_at_ms: i64,
    at_ms: i64,
    context_id: i64,
)
    requires
        t.wf(),
        nothing_after(t, context_id, recorded_at_ms),
        at_ms >= recorded_at_ms,
        under(path, prefix),
        !live_paths(t, context_id, prefix).contains(path),
    ensures
        state_at(t, path, at_ms, context_id) == Ok::<Option<Seq<char>>, StoreError>(None),
{
    let rs = t.revisions;
    if file_id_of(t.files, context_id, path) is Some {
        let id = file_id_of(t.files, context_id, path)->Some_0;
        lemma_file_id_of(t.files, context_id, path);
        let at = choose|i: int|
            0 <= i < t.files.len() && (#[trigger] t.files[i]).id == id && t.files[i].context_id
                == context_id && t.files[i].path == path;
        if is_live(rs, t.files[at]) {
            lemma_live_path_is_listed(t.files, rs, context_id, prefix, at);
            lemma_sorted_texts(live_paths_in(t.files, rs, context_id, prefix));
        }
        lemma_latest_at(rs, id, i64::MAX);
        lemma_latest_at(rs, id, at_ms);
        if latest(rs, id) is Some {
            let r = latest(rs, id)->Some_0;
            let p = choose|i: int| 0 <= i < rs.len() && #[trigger] rs[i] == r;
            assert(recorded_by(t, path, context_id, recorded_at_ms));
            assert(rs[p].recorded_at_ms <= recorded_at_ms);
            lemma_latest_is(rs, id, at_ms, p);
        } else if latest_at(rs, id, at_ms) is Some {
            let r = latest_at(rs, id, at_ms)->Some_0;
            let p = choose|i: int| 0 <= i < rs.len() && #[trigger] rs[i] == r;
            assert(rs[p].file_id == id);
        }
    }
}

/// One more recorded end makes one more file absent.
pub proof fn lemma_one_more_end(
    t: Tables,
    u: Tables,
    v: Tables,
    paths: Seq<Seq<char>>,
    last: Seq<char>,
    recorded_at_ms: i64,
    context_id: i64,
)
    requires
        u.wf(),
        nothing_after(u, context_id, recorded_at_ms),
        ends_at(t, u, paths, recorded_at_ms, context_id),
        with_delete(u, last, recorded_at_ms, context_id) matches Ok((w, _)) && w == v,
        forall|at_ms: i64|
            at_ms >= recorded_at_ms ==> #[trigger] state_at(v, last, at_ms, context_id) == Ok::<
                Option<Seq<char>>,
                StoreError,
            >(None),
    ensures
        nothing_after(v, context_id, recorded_at_ms),
        ends_at(t, v, paths.push(last), recorded_at_ms, context_id),
{
    lemma_recording_leaves_nothing_after(u, last, Seq::empty(), recorded_at_ms, context_id, 1);
    let all = paths.push(last);
    assert forall|path: Seq<char>, at_ms: i64| at_ms >= recorded_at_ms implies #[trigger] state_at(
        v,
        path,
        at_ms,
        context_id,
    ) == (if all.contains(path) {
        Ok::<Option<Seq<char>>, StoreError>(None)
    } else {
        state_at(t, path, at_ms, context_id)
    }) by {
        if path == last {
            assert(all[paths.len() as int] == path);
        } else {
            law_delete_keeps_other_states(
                u,
                last,
                recorded_at_ms,
                context_id,
                path,
                context_id,
                at_ms,
            );
            assert(state_at(u, path, at_ms, context_id) == state_at(v, path, at_ms, context_id));
            if paths.contains(path) {
                let k = choose|k: int| 0 <= k < paths.len() && paths[k] == path;
                assert(all[k] == path);
            } else if all.contains(path) {
                let k = choose|k: int| 0 <= k < all.len() && all[k] == path;
                assert(paths[k] == path);
            }
        }
    }
}

proof fn lemma_anything_fits(text: Seq<char>)
    ensures
        covers(seq!['%'], text),
    decreases text.len(),
{
    let any = seq!['%'];
    if text.len() > 0 {
        lemma_anything_fits(text.skip(1));
    } else {
        assert(any.skip(1).len() == 0);
        assert(covers(any.skip(1), text));
    }
}

proof fn lemma_begun_text_fits(prefix: Seq<char>, rest: Seq<char>)
    ensures
        covers(prefix + seq!['%'], prefix + rest),
    decreases prefix.len(),
{
    let pattern = prefix + seq!['%'];
    let text = prefix + rest;
    if prefix.len() == 0 {
        assert(pattern =~= seq!['%']);
        assert(text =~= rest);
        lemma_anything_fits(rest);
    } else {
        lemma_begun_text_fits(prefix.skip(1), rest);
        assert(pattern.skip(1) =~= prefix.skip(1) + seq!['%']);
        assert(text.skip(1) =~= prefix.skip(1) + rest);
        assert(covers(pattern.skip(1), text.skip(1)));
        assert(pattern[0] == text[0]);
        if pattern[0] == '%' {
            assert(covers(pattern, text.skip(1)));
        }
    }
}

proof fn lemma_text_fits_itself(s: Seq<char>)
    ensures
        covers(s, s),
    decreases s.len(),
{
    if s.len() > 0 {
        lemma_text_fits_itself(s.skip(1));
        if s[0] == '%' {
            assert(covers(s, s.skip(1)));
        }
    }
}

/// A path that begins with a prefix lies under it.
proof fn lemma_begun_path_is_under(prefix: Seq<char>, rest: Seq<char>)
    ensures
        under(prefix + rest, prefix),
{
    let pattern = prefix + seq!['%'];
    let path = prefix + rest;
    lemma_position_of(prefix, '\0');
    let n = position_of(prefix, '\0') as int;
    if n < prefix.len() {
        lemma_position_unique(pattern, '\0', n);
        lemma_position_unique(path, '\0', n);
        assert(before_nul(pattern) =~= prefix.take(n));
        assert(before_nul(path) =~= prefix.take(n));
        lemma_text_fits_itself(prefix.take(n));
    } else {
        lemma_position_of(rest, '\0');
        let m = position_of(rest, '\0') as int;
        lemma_position_unique(pattern, '\0', n + 1);
        lemma_position_unique(path, '\0', n + m);
        assert(before_nul(pattern) =~= pattern);
        assert(before_nul(path) =~= prefix + rest.take(m));
        lemma_begun_text_fits(prefix, rest.take(m));
    }
}

/// Once the ends of all files under a prefix were recorded, no file is there whose path
/// begins with it.
pub proof fn law_nothing_is_left_below(
    t: Tables,
    u: Tables,
    prefix: Seq<char>,
    rest: Seq<char>,
    recorded_at_ms: i64,
    at_ms: i64,
    context_id: i64,
)
    requires
        t.wf(),
        nothing_after(t, context_id, recorded_at_ms),
        at_ms >= recorded_at_ms,
        ends_at(t, u, live_paths(t, context_id, prefix), recorded_at_ms, context_id),
    ensures
        state_at(u, prefix + rest, at_ms, context_id) == Ok::<Option<Seq<char>>, StoreError>(None),
{
    lemma_begun_path_is_under(prefix, rest);
    if !live_paths(t, context_id, prefix).contains(prefix + rest) {
        lemma_unlisted_path_is_absent(
            t,
            prefix,
            prefix + rest,
            recorded_at_ms,
            at_ms,
            context_id,
        );
    }
}

} // verus!
