//! The rows that each recording writes.
use vstd::prelude::*;
use vstd::utf8::*;

use crate::delta::patch_text;
use crate::store::expiry::held_at;
use crate::store::lookup::{
    content_of,
    context_id_of,
    file_id_of,
    latest,
    lemma_context_id_of,
    lemma_file_id_of,
    lemma_latest_at,
    lemma_latest_is,
};
use crate::store::record::{
    kept_as_patch,
    lemma_seen_keeps_numbers,
    sha256_hex,
    spacing,
    with_context,
    with_context_seen,
    with_delete,
    with_text,
    with_watcher,
};
use crate::store::rows::{ContextView, EventType, FileView, RecordView, RevisionView, StorageKind};
use crate::store::shown::law_rows_are_found;
use crate::store::sound::{lemma_no_revision_of_new_file, lemma_with_file_finds};
use crate::store::tables::{has_context, has_file, Tables};

verus! {

/// The newest revision of a file that has one.
proof fn lemma_newest_is(t: Tables, f: int, i: int)
    requires
        t.keyed(),
        0 <= f < t.files.len(),
        0 <= i < t.revisions.len(),
        t.revisions[i].file_id == t.files[f].id,
        held_at(t.revisions, t.revisions[i], i64::MAX),
    ensures
        file_id_of(t.files, t.files[f].context_id, t.files[f].path) == Some(t.files[f].id),
        latest(t.revisions, t.files[f].id) == Some(t.revisions[i]),
{
    law_rows_are_found(t, t.files[f].context_id, t.files[f].path, Seq::empty());
    lemma_latest_is(t.revisions, t.files[f].id, i64::MAX, i);
}

/// Whether a row records a content: with its file, time, digest and size.
pub open spec fn records_content(
    n: RevisionView,
    file_id: i64,
    content: Seq<char>,
    recorded_at_ms: i64,
) -> bool {
    &&& n.file_id == file_id
    &&& n.recorded_at_ms == recorded_at_ms
    &&& n.content_hash == Some(sha256_hex(content))
    &&& n.size_bytes == Some(encode_utf8(content).len() as i64)
}

/// Whether a row holds a content in full.
pub open spec fn is_full_copy(n: RevisionView, content: Seq<char>) -> bool {
    &&& n.storage_kind == StorageKind::Full
    &&& n.base_revision_id is None
    &&& n.payload == Some(encode_utf8(content))
}

/// A content of a file that has revisions takes one more exactly where it is not what the
/// newest one holds by its digest. The new row has the next ordinal and a number above all
/// others. It creates the file where the newest was an end, and modifies it elsewhere. It is
/// a full copy where it creates the file and at every ordinal that the interval divides, and
/// elsewhere the patch from what the newest revision gives.
pub proof fn law_text_of_a_known_file(
    t: Tables,
    f: int,
    i: int,
    content: Seq<char>,
    recorded_at_ms: i64,
    interval: i64,
)
    requires
        t.wf(),
        interval > 0,
        0 <= f < t.files.len(),
        0 <= i < t.revisions.len(),
        t.revisions[i].file_id == t.files[f].id,
        held_at(t.revisions, t.revisions[i], i64::MAX),
        with_text(
            t,
            t.files[f].path,
            content,
            recorded_at_ms,
            t.files[f].context_id,
            interval,
        ) is Ok,
    ensures
        ({
            let r = t.revisions[i];
            let (u, added) = with_text(
                t,
                t.files[f].path,
                content,
                recorded_at_ms,
                t.files[f].context_id,
                interval,
            )->Ok_0;
            let n = u.revisions.last();
            &&& added <==> r.event_type == EventType::Delete || r.content_hash != Some(
                sha256_hex(content),
            )
            &&& !added ==> u.revisions == t.revisions
            &&& u.files.len() == t.files.len()
            &&& added ==> {
                &&& u.revisions == t.revisions.push(n)
                &&& records_content(n, t.files[f].id, content, recorded_at_ms)
                &&& n.ordinal == r.ordinal + 1
                &&& n.id == t.last_revision_id + 1
                &&& forall|k: int| 0 <= k < t.revisions.len() ==> (#[trigger] t.revisions[k]).id < n.id
                &&& n.event_type == (if r.event_type == EventType::Delete {
                    EventType::Create
                } else {
                    EventType::Modify
                })
                &&& if r.event_type == EventType::Delete || (n.ordinal as int) % (interval as int) == 0 {
                    is_full_copy(n, content)
                } else {
                    &&& n.storage_kind == StorageKind::Patch
                    &&& n.base_revision_id == Some(r.id)
                    &&& content_of(t.revisions, r) matches Ok(previous)
                    &&& n.payload == Some(encode_utf8(patch_text(previous, content)))
                }
            }
        }),
{
    let file = t.files[f];
    lemma_newest_is(t, f, i);
    lemma_seen_keeps_numbers(t, file.context_id, recorded_at_ms);
    let seen = with_context_seen(t, file.context_id, recorded_at_ms);
    lemma_with_file_finds(seen, file.context_id, file.path, recorded_at_ms);
}

/// The first content of a path in a context makes a file under the next number, and a full
/// copy of ordinal one that creates it.
pub proof fn law_text_of_a_new_file(
    t: Tables,
    path: Seq<char>,
    content: Seq<char>,
    recorded_at_ms: i64,
    context_id: i64,
    interval: i64,
)
    requires
        t.wf(),
        forall|f: int|
            0 <= f < t.files.len() ==> !((#[trigger] t.files[f]).context_id == context_id
                && t.files[f].path == path),
        with_text(t, path, content, recorded_at_ms, context_id, interval) is Ok,
    ensures
        ({
            let (u, added) = with_text(
                t,
                path,
                content,
                recorded_at_ms,
                context_id,
                interval,
            )->Ok_0;
            let n = u.revisions.last();
            &&& added
            &&& u.files == t.files.push(
                FileView {
                    id: (t.last_file_id + 1) as i64,
                    context_id,
                    path,
                    first_seen_ms: recorded_at_ms,
                    last_seen_ms: recorded_at_ms,
                },
            )
            &&& u.revisions == t.revisions.push(n)
            &&& records_content(n, (t.last_file_id + 1) as i64, content, recorded_at_ms)
            &&& n.id == t.last_revision_id + 1
            &&& n.ordinal == 1
            &&& n.event_type == EventType::Create
            &&& is_full_copy(n, content)
        }),
{
    law_rows_are_found(t, context_id, path, Seq::empty());
    lemma_seen_keeps_numbers(t, context_id, recorded_at_ms);
    let seen = with_context_seen(t, context_id, recorded_at_ms);
    lemma_with_file_finds(seen, context_id, path, recorded_at_ms);
    lemma_no_revision_of_new_file(t, (t.last_file_id + 1) as i64, i64::MAX);
}

/// The end of a file that is there takes one more revision, which holds nothing; the end of
/// one that is not there takes none.
pub proof fn law_end_of_a_file(t: Tables, f: int, i: int, recorded_at_ms: i64)
    requires
        t.wf(),
        0 <= f < t.files.len(),
        0 <= i < t.revisions.len(),
        t.revisions[i].file_id == t.files[f].id,
        held_at(t.revisions, t.revisions[i], i64::MAX),
        with_delete(t, t.files[f].path, recorded_at_ms, t.files[f].context_id) is Ok,
    ensures
        ({
            let r = t.revisions[i];
            let (u, added) = with_delete(
                t,
                t.files[f].path,
                recorded_at_ms,
                t.files[f].context_id,
            )->Ok_0;
            &&& added <==> r.event_type != EventType::Delete
            &&& u.files.len() == t.files.len()
            &&& !added ==> u.revisions == t.revisions
            &&& added ==> u.revisions == t.revisions.push(
                RevisionView {
                    id: (t.last_revision_id + 1) as i64,
                    file_id: t.files[f].id,
                    ordinal: (r.ordinal + 1) as i64,
                    recorded_at_ms,
                    event_type: EventType::Delete,
                    storage_kind: StorageKind::Absent,
                    base_revision_id: None,
                    content_hash: None,
                    size_bytes: None,
                    payload: None,
                },
            )
        }),
{
    lemma_newest_is(t, f, i);
}

/// The end of a path that a context does not know records nothing.
pub proof fn law_end_of_an_unknown_file(
    t: Tables,
    path: Seq<char>,
    recorded_at_ms: i64,
    context_id: i64,
)
    requires
        t.keyed(),
        forall|f: int|
            0 <= f < t.files.len() ==> !((#[trigger] t.files[f]).context_id == context_id
                && t.files[f].path == path),
    ensures
        with_delete(t, path, recorded_at_ms, context_id) matches Ok((u, added)) && !added
            && u.revisions == t.revisions && u.files == t.files,
{
    law_rows_are_found(t, context_id, path, Seq::empty());
}

/// Recording a content does not fail where the context is known, row numbers are left, the
/// next ordinal of the file is free and what the newest revision gives can be read, if there
/// is one that is no end.
pub proof fn law_texts_are_accepted(
    t: Tables,
    path: Seq<char>,
    content: Seq<char>,
    recorded_at_ms: i64,
    context_id: i64,
    interval: i64,
)
    requires
        t.wf(),
        interval > 0,
        exists|c: int| 0 <= c < t.contexts.len() && (#[trigger] t.contexts[c]).id == context_id,
        t.last_file_id < i64::MAX,
        t.last_revision_id < i64::MAX,
        forall|f: int, i: int|
            0 <= f < t.files.len() && 0 <= i < t.revisions.len() && (
            #[trigger] t.files[f]).context_id == context_id && t.files[f].path == path && (
            #[trigger] t.revisions[i]).file_id == t.files[f].id && held_at(
                t.revisions,
                t.revisions[i],
                i64::MAX,
            ) ==> {
                &&& t.revisions[i].ordinal < i64::MAX
                &&& forall|k: int|
                    0 <= k < t.revisions.len() && (#[trigger] t.revisions[k]).file_id
                        == t.files[f].id ==> t.revisions[k].ordinal != t.revisions[i].ordinal + 1
                &&& t.revisions[i].event_type != EventType::Delete ==> content_of(
                    t.revisions,
                    t.revisions[i],
                ) is Ok
            },
    ensures
        with_text(t, path, content, recorded_at_ms, context_id, interval) is Ok,
{
    let seen = with_context_seen(t, context_id, recorded_at_ms);
    let rs = t.revisions;
    lemma_seen_keeps_numbers(t, context_id, recorded_at_ms);
    law_rows_are_found(t, context_id, path, Seq::empty());
    let c = choose|c: int| 0 <= c < t.contexts.len() && (#[trigger] t.contexts[c]).id == context_id;
    assert(seen.contexts[c].id == context_id);
    assert(has_context(seen.contexts, context_id));
    lemma_file_id_of(t.files, context_id, path);
    if file_id_of(t.files, context_id, path) is Some {
        let id = file_id_of(t.files, context_id, path)->Some_0;
        let f = choose|f: int|
            0 <= f < t.files.len() && (#[trigger] t.files[f]).id == id && t.files[f].context_id
                == context_id && t.files[f].path == path;
        lemma_latest_at(rs, id, i64::MAX);
        if latest(rs, id) is Some {
            let r = latest(rs, id)->Some_0;
            let i = choose|i: int| 0 <= i < rs.len() && #[trigger] rs[i] == r;
            assert(held_at(rs, rs[i], i64::MAX));
            assert(t.files[f].context_id == context_id && rs[i].file_id == t.files[f].id);
        }
    } else {
        let id = (t.last_file_id + 1) as i64;
        lemma_no_revision_of_new_file(t, id, i64::MAX);
        assert forall|k: int| 0 <= k < rs.len() implies (#[trigger] rs[k]).file_id != id by {
            assert(has_file(t.files, rs[k].file_id));
            let f = choose|f: int|
                0 <= f < t.files.len() && (#[trigger] t.files[f]).id == rs[k].file_id;
            assert(t.files[f].id <= t.last_file_id);
        }
    }
}

/// Recording an end does not fail where row numbers are left and the next ordinal of the
/// file is free.
pub proof fn law_ends_are_accepted(
    t: Tables,
    path: Seq<char>,
    recorded_at_ms: i64,
    context_id: i64,
)
    requires
        t.keyed(),
        t.last_revision_id < i64::MAX,
        forall|f: int, i: int|
            0 <= f < t.files.len() && 0 <= i < t.revisions.len() && (
            #[trigger] t.files[f]).context_id == context_id && t.files[f].path == path && (
            #[trigger] t.revisions[i]).file_id == t.files[f].id && held_at(
                t.revisions,
                t.revisions[i],
                i64::MAX,
            ) ==> {
                &&& t.revisions[i].ordinal < i64::MAX
                &&& forall|k: int|
                    0 <= k < t.revisions.len() && (#[trigger] t.revisions[k]).file_id
                        == t.files[f].id ==> t.revisions[k].ordinal != t.revisions[i].ordinal + 1
            },
    ensures
        with_delete(t, path, recorded_at_ms, context_id) is Ok,
{
    let rs = t.revisions;
    lemma_file_id_of(t.files, context_id, path);
    if file_id_of(t.files, context_id, path) is Some {
        let id = file_id_of(t.files, context_id, path)->Some_0;
        let f = choose|f: int|
            0 <= f < t.files.len() && (#[trigger] t.files[f]).id == id && t.files[f].context_id
                == context_id && t.files[f].path == path;
        lemma_latest_at(rs, id, i64::MAX);
        if latest(rs, id) is Some {
            let r = latest(rs, id)->Some_0;
            let i = choose|i: int| 0 <= i < rs.len() && #[trigger] rs[i] == r;
            assert(held_at(rs, rs[i], i64::MAX));
            assert(t.files[f].context_id == context_id && rs[i].file_id == t.files[f].id);
        }
    }
}

/// Whether times of a row were widened to hold another one.
pub open spec fn widened(first: i64, last: i64, was_first: i64, was_last: i64, at: i64) -> bool {
    &&& first <= was_first && first <= at && (first == was_first || first == at)
    &&& last >= was_last && last >= at && (last == was_last || last == at)
}

/// Recording keeps every other row of the contexts and files, and widens the times of those
/// that it sees.
pub proof fn law_recording_a_text_touches_its_rows_alone(
    t: Tables,
    path: Seq<char>,
    content: Seq<char>,
    recorded_at_ms: i64,
    context_id: i64,
    interval: i64,
    k: int,
)
    requires
        t.wf(),
        with_text(t, path, content, recorded_at_ms, context_id, interval) is Ok,
    ensures
        ({
            let u = with_text(
                t,
                path,
                content,
                recorded_at_ms,
                context_id,
                interval,
            )->Ok_0.0;
            &&& u.contexts.len() == t.contexts.len()
            &&& u.watcher == t.watcher
            &&& 0 <= k < t.contexts.len() ==> {
                let now = u.contexts[k];
                let was = t.contexts[k];
                &&& now.id == was.id && now.record == was.record && now.first_seen_ms
                    == was.first_seen_ms
                &&& was.id != context_id ==> now == was
                &&& was.id == context_id ==> now.last_seen_ms >= was.last_seen_ms
                    && now.last_seen_ms >= recorded_at_ms && (now.last_seen_ms == was.last_seen_ms
                    || now.last_seen_ms == recorded_at_ms)
            }
            &&& 0 <= k < t.files.len() ==> {
                let now = u.files[k];
                let was = t.files[k];
                &&& now.id == was.id && now.context_id == was.context_id && now.path == was.path
                &&& !(was.context_id == context_id && was.path == path) ==> now == was
                &&& was.context_id == context_id && was.path == path ==> widened(
                    now.first_seen_ms,
                    now.last_seen_ms,
                    was.first_seen_ms,
                    was.last_seen_ms,
                    recorded_at_ms,
                )
            }
        }),
{
    let seen = with_context_seen(t, context_id, recorded_at_ms);
    lemma_seen_keeps_numbers(t, context_id, recorded_at_ms);
    law_rows_are_found(t, context_id, path, Seq::empty());
    lemma_with_file_finds(seen, context_id, path, recorded_at_ms);
    if 0 <= k < t.files.len() && file_id_of(t.files, context_id, path) is Some {
        let id = file_id_of(t.files, context_id, path)->Some_0;
        if t.files[k].context_id == context_id && t.files[k].path == path {
            assert(t.files[k].id == id);
        } else if t.files[k].id == id {
            lemma_file_id_of(t.files, context_id, path);
            let j = choose|j: int|
                0 <= j < t.files.len() && (#[trigger] t.files[j]).id == id
                    && t.files[j].context_id == context_id && t.files[j].path == path;
            if j < k {
                assert(t.files[j].id < t.files[k].id);
            } else if k < j {
                assert(t.files[k].id < t.files[j].id);
            }
        }
    }
}

/// A context that is noted for the first time gets a row of its own under the next number.
/// One that is known keeps its number; its row takes what is known of it now, and its times
/// are widened. No other context changes, and nothing else does.
pub proof fn law_noting_a_context(t: Tables, record: RecordView, seen_ms: i64, k: int)
    requires
        t.keyed(),
        with_context(t, record, seen_ms) is Ok,
    ensures
        ({
            let (u, id) = with_context(t, record, seen_ms)->Ok_0;
            &&& u.files == t.files && u.revisions == t.revisions && u.watcher == t.watcher
            &&& (forall|c: int|
                0 <= c < t.contexts.len() ==> (#[trigger] t.contexts[c]).record.fingerprint
                    != record.fingerprint) ==> id == t.last_context_id + 1 && u.contexts
                == t.contexts.push(
                ContextView { id, record, first_seen_ms: seen_ms, last_seen_ms: seen_ms },
            )
            &&& 0 <= k < t.contexts.len() && t.contexts[k].record.fingerprint
                == record.fingerprint ==> {
                &&& id == t.contexts[k].id
                &&& u.contexts.len() == t.contexts.len()
                &&& u.contexts[k].id == id && u.contexts[k].record == record
                &&& widened(
                    u.contexts[k].first_seen_ms,
                    u.contexts[k].last_seen_ms,
                    t.contexts[k].first_seen_ms,
                    t.contexts[k].last_seen_ms,
                    seen_ms,
                )
            }
            &&& 0 <= k < t.contexts.len() && t.contexts[k].record.fingerprint
                != record.fingerprint ==> u.contexts[k] == t.contexts[k]
        }),
{
    law_rows_are_found(t, 0, Seq::empty(), record.fingerprint);
    if 0 <= k < t.contexts.len() && context_id_of(t.contexts, record.fingerprint) is Some {
        let id = context_id_of(t.contexts, record.fingerprint)->Some_0;
        if t.contexts[k].record.fingerprint != record.fingerprint && t.contexts[k].id == id {
            lemma_context_id_of(t.contexts, record.fingerprint);
            let j = choose|j: int|
                0 <= j < t.contexts.len() && (#[trigger] t.contexts[j]).id == id
                    && t.contexts[j].record.fingerprint == record.fingerprint;
            if j < k {
                assert(t.contexts[j].id < t.contexts[k].id);
            } else if k < j {
                assert(t.contexts[k].id < t.contexts[j].id);
            }
        }
    }
}

/// A sign of life replaces the watcher's row. The time at which it started stays while the
/// process is the same.
pub proof fn law_signs_of_life(
    t: Tables,
    pid: i64,
    started_at_ms: i64,
    heartbeat_ms: i64,
    root: Seq<char>,
)
    ensures
        ({
            let u = with_watcher(t, pid, started_at_ms, heartbeat_ms, root);
            &&& u.files == t.files && u.revisions == t.revisions && u.contexts == t.contexts
            &&& u.watcher matches Some(w)
            &&& w.pid == pid && w.heartbeat_ms == heartbeat_ms && w.root_path == root
            &&& (t.watcher matches Some(was) && was.pid == pid) ==> w.started_at_ms
                == t.watcher->Some_0.started_at_ms
            &&& !(t.watcher matches Some(was) && was.pid == pid) ==> w.started_at_ms
                == started_at_ms
        }),
{
}

/// Recording the end of a file keeps every other row of the contexts and files. The file was
/// last seen at that time, and the context no earlier than that.
pub proof fn law_recording_an_end_touches_its_rows_alone(
    t: Tables,
    path: Seq<char>,
    recorded_at_ms: i64,
    context_id: i64,
    k: int,
)
    requires
        t.wf(),
        t.keyed(),
        with_delete(t, path, recorded_at_ms, context_id) is Ok,
    ensures
        ({
            let u = with_delete(t, path, recorded_at_ms, context_id)->Ok_0.0;
            &&& u.contexts.len() == t.contexts.len()
            &&& u.files.len() == t.files.len()
            &&& u.watcher == t.watcher
            &&& 0 <= k < t.contexts.len() ==> {
                let now = u.contexts[k];
                let was = t.contexts[k];
                &&& now.id == was.id && now.record == was.record && now.first_seen_ms
                    == was.first_seen_ms
                &&& was.id != context_id ==> now == was
                &&& was.id == context_id ==> now.last_seen_ms >= was.last_seen_ms
                    && now.last_seen_ms >= recorded_at_ms && (now.last_seen_ms == was.last_seen_ms
                    || now.last_seen_ms == recorded_at_ms)
            }
            &&& 0 <= k < t.files.len() ==> {
                let now = u.files[k];
                let was = t.files[k];
                &&& !(was.context_id == context_id && was.path == path) ==> now == was
                &&& was.context_id == context_id && was.path == path ==> now == FileView {
                    last_seen_ms: recorded_at_ms,
                    ..was
                }
            }
        }),
{
    lemma_file_id_of(t.files, context_id, path);
    let found = file_id_of(t.files, context_id, path);
    if found is Some && 0 <= k < t.files.len() {
        let id = found->Some_0;
        let i = choose|i: int|
            0 <= i < t.files.len() && (#[trigger] t.files[i]).id == id && t.files[i].context_id
                == context_id && t.files[i].path == path;
        if i < k {
            assert(t.files[i].id < t.files[k].id);
        } else if k < i {
            assert(t.files[k].id < t.files[i].id);
        }
    }
}

/// How far full copies lie apart does not depend on the sign of the interval.
pub proof fn law_intervals_have_no_sign(
    t: Tables,
    path: Seq<char>,
    content: Seq<char>,
    recorded_at_ms: i64,
    context_id: i64,
    interval: i64,
)
    requires
        interval > i64::MIN,
    ensures
        with_text(t, path, content, recorded_at_ms, context_id, interval) == with_text(
            t,
            path,
            content,
            recorded_at_ms,
            context_id,
            (-interval) as i64,
        ),
{
    let opposite = (-interval) as i64;
    assert(spacing(interval) == spacing(opposite));
    assert forall|newest: Option<RevisionView>| #[trigger] kept_as_patch(newest, interval)
        == kept_as_patch(newest, opposite) by {}
}

} // verus!
