//! What a timeline reads as that was migrated from the first layout.
use vstd::prelude::*;
use vstd::utf8::*;

use crate::store::laws::{lemma_noted_context_is_found, lemma_state_push};
use crate::store::listing::revisions_of;
use crate::store::lookup::{
    content_of,
    context_id_of,
    file_id_of,
    lemma_context_id_of,
    lemma_file_id_of,
    lemma_latest_at,
    state_at,
    state_in,
};
use crate::store::migrate::{
    advanced,
    by_path,
    entered,
    file_placed,
    file_progress,
    lane_of,
    legacy_history,
    legacy_newer,
    legacy_placed,
    lemma_lane_of,
    migrated,
    migrated_row,
    only_watcher,
    replayed,
    Lane,
    LegacyFileView,
    LegacyRevisionView,
    Progress,
};
use crate::store::record::{ordinal_taken, sha256_hex, with_context, with_file, with_revision};
use crate::store::retention::lemma_one_full;
use crate::store::rows::{
    record_of,
    EventType,
    RecordView,
    RevisionView,
    StorageKind,
    WatcherView,
};
use crate::store::sound::{
    above_all,
    lemma_files_differ,
    lemma_no_revision_of_new_file,
    lemma_pushed_is_latest,
    lemma_with_file_finds,
    recorded_by,
};
use crate::store::tables::{base_holds, has_context, has_file, StoreError, Tables};
use crate::text::{byte_len, text_before};

verus! {

/// The fingerprint of the context in which a legacy revision was recorded.
pub open spec fn legacy_fingerprint(project_root: Seq<char>, r: LegacyRevisionView) -> Seq<char> {
    record_of(project_root, r.git_context).fingerprint
}

/// What a legacy file held at a time in a context: what replaying all revisions up to the
/// last one of that context by then gives.
pub open spec fn legacy_state(
    rs: Seq<LegacyRevisionView>,
    project_root: Seq<char>,
    fingerprint: Seq<char>,
    at_ms: i64,
) -> Result<Option<Seq<char>>, StoreError>
    decreases rs.len(),
{
    if rs.len() == 0 {
        Ok(None)
    } else if legacy_fingerprint(project_root, rs.last()) == fingerprint
        && rs.last().recorded_at_ms <= at_ms {
        replayed(rs)
    } else {
        legacy_state(rs.drop_last(), project_root, fingerprint, at_ms)
    }
}

/// Whether legacy revisions stand in the order of their times.
pub open spec fn times_ascend(rs: Seq<LegacyRevisionView>) -> bool {
    forall|i: int, j: int|
        0 <= i < j < rs.len() ==> (#[trigger] rs[i]).recorded_at_ms <= (
        #[trigger] rs[j]).recorded_at_ms
}

proof fn lemma_placed_ascends(sorted: Seq<LegacyRevisionView>, r: LegacyRevisionView)
    requires
        times_ascend(sorted),
    ensures
        times_ascend(legacy_placed(sorted, r)),
        forall|k: int|
            0 <= k < legacy_placed(sorted, r).len() ==> (#[trigger] legacy_placed(
                sorted,
                r,
            )[k]).recorded_at_ms <= r.recorded_at_ms || sorted.len() > 0 && legacy_placed(
                sorted,
                r,
            )[k].recorded_at_ms <= sorted.last().recorded_at_ms,
    decreases sorted.len(),
{
    if sorted.len() > 0 && legacy_newer(sorted.last(), r) {
        let rest = sorted.drop_last();
        assert forall|i: int, j: int| 0 <= i < j < rest.len() implies (
        #[trigger] rest[i]).recorded_at_ms <= (#[trigger] rest[j]).recorded_at_ms by {
            assert(sorted[i].recorded_at_ms <= sorted[j].recorded_at_ms);
        }
        lemma_placed_ascends(rest, r);
        let out = legacy_placed(rest, r);
        let whole = out.push(sorted.last());
        assert(sorted[sorted.len() - 1] == sorted.last());
        if rest.len() > 0 {
            assert(rest.last() == sorted[sorted.len() - 2]);
            assert(sorted[sorted.len() - 2].recorded_at_ms <= sorted[sorted.len()
                - 1].recorded_at_ms);
        }
        assert forall|k: int| 0 <= k < whole.len() implies (#[trigger] whole[k]).recorded_at_ms
            <= sorted.last().recorded_at_ms by {
            if k < out.len() {
                assert(whole[k] == out[k]);
            }
        }
        assert forall|i: int, j: int| 0 <= i < j < whole.len() implies (
        #[trigger] whole[i]).recorded_at_ms <= (#[trigger] whole[j]).recorded_at_ms by {
            if j < out.len() {
                assert(whole[i] == out[i] && whole[j] == out[j]);
            }
        }
    } else {
        let whole = sorted.push(r);
        assert forall|k: int| 0 <= k < whole.len() implies (#[trigger] whole[k]).recorded_at_ms
            <= r.recorded_at_ms by {
            if k < sorted.len() {
                assert(whole[k] == sorted[k]);
                if k < sorted.len() - 1 {
                    assert(sorted[k].recorded_at_ms <= sorted[sorted.len() - 1].recorded_at_ms);
                }
            }
        }
        assert forall|i: int, j: int| 0 <= i < j < whole.len() implies (
        #[trigger] whole[i]).recorded_at_ms <= (#[trigger] whole[j]).recorded_at_ms by {
            if j < sorted.len() {
                assert(whole[i] == sorted[i] && whole[j] == sorted[j]);
            }
        }
    }
}

proof fn lemma_history_ascends(rs: Seq<LegacyRevisionView>, file_id: i64)
    ensures
        times_ascend(legacy_history(rs, file_id)),
    decreases rs.len(),
{
    if rs.len() > 0 {
        lemma_history_ascends(rs.drop_last(), file_id);
        if rs.last().file_id == file_id {
            lemma_placed_ascends(legacy_history(rs.drop_last(), file_id), rs.last());
        }
    }
}

// ---------------------------------------------------------------------------
// What the parts of a step do
// ---------------------------------------------------------------------------

proof fn lemma_noting_context(t: Tables, record: RecordView, seen_ms: i64)
    requires
        t.wf(),
        with_context(t, record, seen_ms) is Ok,
    ensures
        ({
            let (u, id) = with_context(t, record, seen_ms)->Ok_0;
            &&& u.wf()
            &&& has_context(u.contexts, id)
            &&& context_id_of(u.contexts, record.fingerprint) == Some(id)
            &&& forall|other: Seq<char>|
                other != record.fingerprint ==> #[trigger] context_id_of(u.contexts, other)
                    == context_id_of(t.contexts, other)
            &&& u.files == t.files
            &&& u.revisions == t.revisions
            &&& u.last_file_id == t.last_file_id
            &&& u.last_revision_id == t.last_revision_id
            &&& forall|fp: Seq<char>, path: Seq<char>, at_ms: i64| #[trigger]
                state_in(u, fp, path, at_ms) == state_in(t, fp, path, at_ms)
        }),
{
    let (u, id) = with_context(t, record, seen_ms)->Ok_0;
    lemma_noted_context_is_found(t, record, seen_ms);
    lemma_context_id_of(t.contexts, record.fingerprint);
    let known = context_id_of(t.contexts, record.fingerprint) is Some;
    if known {
        assert forall|i: int| 0 <= i < t.contexts.len() implies (#[trigger] u.contexts[i]).id
            == t.contexts[i].id by {}
        let at = choose|i: int|
            0 <= i < t.contexts.len() && (#[trigger] t.contexts[i]).id == id
                && t.contexts[i].record.fingerprint == record.fingerprint;
        assert(u.contexts[at].id == id);
    } else {
        assert(u.contexts[t.contexts.len() as int].id == id);
    }
    assert forall|i: int| 0 <= i < u.files.len() implies has_context(
        u.contexts,
        (#[trigger] u.files[i]).context_id,
    ) by {
        assert(has_context(t.contexts, t.files[i].context_id));
        let k = choose|k: int|
            0 <= k < t.contexts.len() && (#[trigger] t.contexts[k]).id == t.files[i].context_id;
        assert(u.contexts[k].id == t.files[i].context_id);
    }
    assert(u.wf());
    assert forall|fp: Seq<char>, path: Seq<char>, at_ms: i64| #[trigger]
        state_in(u, fp, path, at_ms) == state_in(t, fp, path, at_ms) by {
        if fp == record.fingerprint && !known {
            lemma_file_id_of(t.files, id, path);
            if file_id_of(t.files, id, path) is Some {
                let i = choose|i: int|
                    0 <= i < t.files.len() && (#[trigger] t.files[i]).id == file_id_of(
                        t.files,
                        id,
                        path,
                    )->Some_0 && t.files[i].context_id == id && t.files[i].path == path;
                assert(has_context(t.contexts, t.files[i].context_id));
                let k = choose|k: int|
                    0 <= k < t.contexts.len() && (#[trigger] t.contexts[k]).id == id;
                assert(t.contexts[k].id <= t.last_context_id);
            }
        } else if fp != record.fingerprint {
            assert(context_id_of(u.contexts, fp) == context_id_of(t.contexts, fp));
        }
    }
}

proof fn lemma_noting_file(t: Tables, context_id: i64, path: Seq<char>, seen_ms: i64)
    requires
        t.wf(),
        has_context(t.contexts, context_id),
        with_file(t, context_id, path, seen_ms) is Ok,
    ensures
        ({
            let (u, id) = with_file(t, context_id, path, seen_ms)->Ok_0;
            &&& u.wf()
            &&& has_file(u.files, id)
            &&& file_id_of(u.files, context_id, path) == Some(id)
            &&& forall|c: i64, p: Seq<char>|
                (c != context_id || p != path) ==> #[trigger] file_id_of(u.files, c, p)
                    == file_id_of(t.files, c, p)
            &&& u.contexts == t.contexts
            &&& u.revisions == t.revisions
            &&& u.last_revision_id == t.last_revision_id
            &&& forall|c: i64, p: Seq<char>, at_ms: i64| #[trigger]
                state_at(u, p, at_ms, c) == state_at(t, p, at_ms, c)
            &&& forall|f: i64| #[trigger] has_file(t.files, f) ==> has_file(u.files, f)
        }),
{
    let (u, id) = with_file(t, context_id, path, seen_ms)->Ok_0;
    lemma_with_file_finds(t, context_id, path, seen_ms);
    lemma_file_id_of(u.files, context_id, path);
    assert forall|f: i64| #[trigger] has_file(t.files, f) implies has_file(u.files, f) by {
        let i = choose|i: int| 0 <= i < t.files.len() && (#[trigger] t.files[i]).id == f;
        assert(u.files[i].id == f);
    }
    assert forall|i: int| 0 <= i < u.files.len() implies has_context(
        u.contexts,
        (#[trigger] u.files[i]).context_id,
    ) by {
        if i < t.files.len() {
            assert(has_context(t.contexts, t.files[i].context_id));
        }
    }
    assert(u.wf()) by {
        lemma_file_id_of(t.files, context_id, path);
        assert forall|i: int, j: int| 0 <= i < j < u.files.len() implies !((
        #[trigger] u.files[i]).context_id == (#[trigger] u.files[j]).context_id
            && u.files[i].path == u.files[j].path) by {
            assert(t.files[i].path == u.files[i].path && t.files[i].context_id
                == u.files[i].context_id);
            if j < t.files.len() {
                assert(t.files[j].path == u.files[j].path);
            }
        }
        assert forall|i: int| 0 <= i < u.revisions.len() implies has_file(
            u.files,
            (#[trigger] u.revisions[i]).file_id,
        ) by {
            assert(has_file(t.files, t.revisions[i].file_id));
        }
    }
    assert forall|c: i64, p: Seq<char>, at_ms: i64| #[trigger]
        state_at(u, p, at_ms, c) == state_at(t, p, at_ms, c) by {
        if c == context_id && p == path {
            if file_id_of(t.files, context_id, path) is None {
                lemma_no_revision_of_new_file(t, id, at_ms);
            }
        } else {
            assert(file_id_of(u.files, c, p) == file_id_of(t.files, c, p));
        }
    }
}

/// Whether a row of a file comes in at its end: with the next number, resting on nothing.
spec fn comes_next(t: Tables, n: RevisionView) -> bool {
    &&& t.last_revision_id < i64::MAX
    &&& n.id == t.last_revision_id + 1
    &&& n.base_revision_id is None
    &&& has_file(t.files, n.file_id)
}

proof fn lemma_adding_row(
    t: Tables,
    n: RevisionView,
    context_id: i64,
    path: Seq<char>,
    content: Option<Seq<char>>,
)
    requires
        t.wf(),
        comes_next(t, n),
        file_id_of(t.files, context_id, path) == Some(n.file_id),
        recorded_by(t, path, context_id, n.recorded_at_ms),
        with_revision(t, n) is Ok,
        exists|lane: Lane, r: LegacyRevisionView|
            n == #[trigger] migrated_row(n.id, lane, r, content) && (content is Some
                ==> r.event_type != EventType::Delete),
    ensures
        ({
            let u = with_revision(t, n)->Ok_0;
            &&& u.wf()
            &&& u.files == t.files
            &&& u.contexts == t.contexts
            &&& u.last_revision_id == n.id
            &&& recorded_by(u, path, context_id, n.recorded_at_ms)
            &&& forall|c: i64, p: Seq<char>, at_ms: i64| #[trigger]
                state_at(u, p, at_ms, c) == (if c == context_id && p == path
                    && n.recorded_at_ms <= at_ms {
                    Ok(content)
                } else {
                    state_at(t, p, at_ms, c)
                })
        }),
{
    let u = with_revision(t, n)->Ok_0;
    let rs = t.revisions;
    assert(u.revisions == rs.push(n));
    assert(above_all(rs, n.id));
    assert(u.wf()) by {
        assert forall|i: int| 0 <= i < u.revisions.len() implies {
            &&& has_file(u.files, (#[trigger] u.revisions[i]).file_id)
            &&& base_holds(u.revisions, u.revisions[i])
        } by {
            if i < rs.len() {
                let r = rs[i];
                assert(u.revisions[i] == r);
                assert(base_holds(rs, r));
                if r.base_revision_id is Some {
                    let b = r.base_revision_id->Some_0;
                    let j = choose|j: int| 0 <= j < rs.len() && (#[trigger] rs[j]).id == b;
                    assert(u.revisions[j] == rs[j]);
                }
            }
        }
        assert forall|i: int, j: int| 0 <= i < j < u.revisions.len() implies !((
        #[trigger] u.revisions[i]).file_id == (#[trigger] u.revisions[j]).file_id
            && u.revisions[i].ordinal == u.revisions[j].ordinal) by {
            assert(u.revisions[i] == rs[i]);
            if j < rs.len() {
                assert(u.revisions[j] == rs[j]);
            }
        }
    }
    assert forall|c: i64, p: Seq<char>, at_ms: i64| #[trigger] state_at(u, p, at_ms, c) == (if c
        == context_id && p == path && n.recorded_at_ms <= at_ms {
        Ok(content)
    } else {
        state_at(t, p, at_ms, c)
    }) by {
        if c == context_id && p == path && n.recorded_at_ms <= at_ms {
            lemma_pushed_is_latest(rs, n, at_ms);
            if content is Some {
                let text = content->Some_0;
                assert(n.payload == Some(encode_utf8(text)));
                encode_utf8_valid_utf8(text);
                encode_utf8_decode_utf8(text);
                lemma_one_full(u.revisions, n, n.id, set![n.id]);
                assert(content_of(u.revisions, n) == Ok::<Seq<char>, StoreError>(text));
            }
        } else {
            if !(c == context_id && p == path) && file_id_of(t.files, c, p) is Some {
                lemma_files_differ(t, c, p, context_id, path);
            }
            lemma_state_push(t, rs, n, n.file_id, p, c, at_ms, u);
        }
    }
}

// ---------------------------------------------------------------------------
// One file
// ---------------------------------------------------------------------------

/// Whether each lane runs in the file that its context has under a path.
spec fn lanes_run(t: Tables, lanes: Seq<Lane>, path: Seq<char>) -> bool {
    forall|i: int|
        0 <= i < lanes.len() ==> {
            let lane = #[trigger] lanes[i];
            &&& context_id_of(t.contexts, lane.fingerprint) is Some
            &&& file_id_of(
                t.files,
                context_id_of(t.contexts, lane.fingerprint)->Some_0,
                path,
            ) == Some(lane.file_id)
            &&& has_file(t.files, lane.file_id)
            &&& 1 <= lane.ordinal <= t.last_revision_id
        }
}

/// Whether a path is not known in any context.
pub open spec fn path_is_new(t: Tables, path: Seq<char>) -> bool {
    forall|c: i64| #[trigger] file_id_of(t.files, c, path) is None
}

/// What holds while a legacy file is migrated.
spec fn file_holds(
    t: Tables,
    p: Progress,
    path: Seq<char>,
    project_root: Seq<char>,
    rs: Seq<LegacyRevisionView>,
) -> bool {
    &&& p.tables.wf()
    &&& lanes_run(p.tables, p.lanes, path)
    &&& replayed(rs) == Ok::<Option<Seq<char>>, StoreError>(p.content)
    &&& forall|fp: Seq<char>, at_ms: i64| #[trigger]
        state_in(p.tables, fp, path, at_ms) == legacy_state(rs, project_root, fp, at_ms)
    &&& forall|fp: Seq<char>, other: Seq<char>, at_ms: i64|
        other != path ==> #[trigger] state_in(p.tables, fp, other, at_ms) == state_in(
            t,
            fp,
            other,
            at_ms,
        )
    &&& forall|other: Seq<char>|
        other != path && path_is_new(t, other) ==> #[trigger] path_is_new(p.tables, other)
    &&& forall|c: i64, m: i64|
        rs.len() == 0 || rs.last().recorded_at_ms <= m ==> #[trigger] recorded_by(
            p.tables,
            path,
            c,
            m,
        )
}

proof fn lemma_entering(
    t: Tables,
    p: Progress,
    path: Seq<char>,
    project_root: Seq<char>,
    rs: Seq<LegacyRevisionView>,
    r: LegacyRevisionView,
)
    requires
        file_holds(t, p, path, project_root, rs),
        entered(p, path, project_root, r) is Ok,
        p.tables.last_revision_id < i64::MAX,
    ensures
        ({
            let (u, lanes, lane) = entered(p, path, project_root, r)->Ok_0;
            let fp = legacy_fingerprint(project_root, r);
            &&& u.wf()
            &&& lane.fingerprint == fp
            &&& u.last_revision_id == p.tables.last_revision_id
            &&& context_id_of(u.contexts, fp) is Some
            &&& file_id_of(u.files, context_id_of(u.contexts, fp)->Some_0, path) == Some(
                lane.file_id,
            )
            &&& has_file(u.files, lane.file_id)
            &&& 1 <= lane.ordinal <= u.last_revision_id + 1
            &&& forall|i: int|
                0 <= i < lanes.len() ==> {
                    let l = #[trigger] lanes[i];
                    &&& context_id_of(u.contexts, l.fingerprint) is Some
                    &&& file_id_of(
                        u.files,
                        context_id_of(u.contexts, l.fingerprint)->Some_0,
                        path,
                    ) == Some(l.file_id)
                    &&& has_file(u.files, l.file_id)
                    &&& 1 <= l.ordinal <= u.last_revision_id + 1
                }
            &&& forall|f: Seq<char>, q: Seq<char>, at_ms: i64| #[trigger]
                state_in(u, f, q, at_ms) == state_in(p.tables, f, q, at_ms)
            &&& forall|other: Seq<char>|
                other != path && path_is_new(p.tables, other) ==> #[trigger] path_is_new(u, other)
            &&& forall|c: i64, m: i64|
                recorded_by(p.tables, path, c, m) ==> #[trigger] recorded_by(u, path, c, m)
        }),
{
    let record = record_of(project_root, r.git_context);
    let (u, lanes, lane) = entered(p, path, project_root, r)->Ok_0;
    let i = lane_of(p.lanes, record.fingerprint);
    lemma_lane_of(p.lanes, record.fingerprint);
    if i < p.lanes.len() {
        assert(p.lanes[i].fingerprint == record.fingerprint);
        assert forall|k: int| 0 <= k < lanes.len() implies {
            let l = #[trigger] lanes[k];
            &&& context_id_of(u.contexts, l.fingerprint) is Some
            &&& file_id_of(u.files, context_id_of(u.contexts, l.fingerprint)->Some_0, path)
                == Some(l.file_id)
            &&& has_file(u.files, l.file_id)
            &&& 1 <= l.ordinal <= u.last_revision_id + 1
        } by {
            assert(p.lanes[k].ordinal >= 1);
        }
    } else {
        let (v, id) = with_context(p.tables, record, r.recorded_at_ms)->Ok_0;
        lemma_noting_context(p.tables, record, r.recorded_at_ms);
        lemma_noting_file(v, id, path, r.recorded_at_ms);
        assert forall|k: int| 0 <= k < lanes.len() implies {
            let l = #[trigger] lanes[k];
            &&& context_id_of(u.contexts, l.fingerprint) is Some
            &&& file_id_of(u.files, context_id_of(u.contexts, l.fingerprint)->Some_0, path)
                == Some(l.file_id)
            &&& has_file(u.files, l.file_id)
            &&& 1 <= l.ordinal <= u.last_revision_id + 1
        } by {
            if k < p.lanes.len() {
                let l = p.lanes[k];
                assert(lanes[k] == l);
                lemma_lane_is_not(p.lanes, record.fingerprint, k);
                assert(context_id_of(v.contexts, l.fingerprint) == context_id_of(
                    p.tables.contexts,
                    l.fingerprint,
                ));
                let c = context_id_of(v.contexts, l.fingerprint)->Some_0;
                assert(c != id) by {
                    lemma_context_numbers_differ(v, l.fingerprint, record.fingerprint);
                }
                assert(file_id_of(u.files, c, path) == file_id_of(v.files, c, path));
                assert(has_file(v.files, l.file_id));
            }
        }
        assert forall|f: Seq<char>, q: Seq<char>, at_ms: i64| #[trigger]
            state_in(u, f, q, at_ms) == state_in(p.tables, f, q, at_ms) by {
            assert(state_in(v, f, q, at_ms) == state_in(p.tables, f, q, at_ms));
            if context_id_of(v.contexts, f) is Some {
                let c = context_id_of(v.contexts, f)->Some_0;
                assert(state_at(u, q, at_ms, c) == state_at(v, q, at_ms, c));
            }
        }
        assert forall|other: Seq<char>|
            other != path && path_is_new(p.tables, other) implies #[trigger] path_is_new(
            u,
            other,
        ) by {
            assert forall|c: i64| #[trigger] file_id_of(u.files, c, other) is None by {
                assert(file_id_of(v.files, c, other) is None) by {
                    assert(file_id_of(p.tables.files, c, other) is None);
                }
            }
        }
        assert forall|c: i64, m: i64|
            recorded_by(p.tables, path, c, m) implies #[trigger] recorded_by(u, path, c, m) by {
            if c == id {
                if file_id_of(v.files, id, path) is None {
                    let new = file_id_of(u.files, id, path)->Some_0;
                    assert forall|k: int|
                        0 <= k < u.revisions.len() && (#[trigger] u.revisions[k]).file_id
                            == new implies u.revisions[k].recorded_at_ms <= m by {
                        lemma_no_revision_of_new_file(v, new, i64::MAX);
                        lemma_latest_at(v.revisions, new, i64::MAX);
                        assert(v.revisions[k].file_id == new);
                    }
                }
            } else {
                assert(file_id_of(u.files, c, path) == file_id_of(v.files, c, path));
            }
        }
    }
}

proof fn lemma_lane_is_not(lanes: Seq<Lane>, fingerprint: Seq<char>, k: int)
    requires
        lane_of(lanes, fingerprint) == lanes.len(),
        0 <= k < lanes.len(),
    ensures
        lanes[k].fingerprint != fingerprint,
    decreases lanes.len(),
{
    lemma_lane_of(lanes.drop_last(), fingerprint);
    if k < lanes.len() - 1 {
        lemma_lane_is_not(lanes.drop_last(), fingerprint, k);
        assert(lanes.drop_last()[k] == lanes[k]);
    }
}

proof fn lemma_context_numbers_differ(t: Tables, a: Seq<char>, b: Seq<char>)
    requires
        t.wf(),
        a != b,
        context_id_of(t.contexts, a) is Some,
    ensures
        context_id_of(t.contexts, a) != context_id_of(t.contexts, b),
{
    lemma_context_id_of(t.contexts, a);
    lemma_context_id_of(t.contexts, b);
    if context_id_of(t.contexts, a) == context_id_of(t.contexts, b) {
        let id = context_id_of(t.contexts, a)->Some_0;
        let i = choose|i: int|
            0 <= i < t.contexts.len() && (#[trigger] t.contexts[i]).id == id
                && t.contexts[i].record.fingerprint == a;
        let j = choose|j: int|
            0 <= j < t.contexts.len() && (#[trigger] t.contexts[j]).id == id
                && t.contexts[j].record.fingerprint == b;
        if i < j {
            assert(t.contexts[i].id < t.contexts[j].id);
        } else if j < i {
            assert(t.contexts[j].id < t.contexts[i].id);
        }
    }
}

proof fn lemma_entering_keeps_count(
    p: Progress,
    path: Seq<char>,
    project_root: Seq<char>,
    r: LegacyRevisionView,
)
    requires
        entered(p, path, project_root, r) is Ok,
    ensures
        entered(p, path, project_root, r)->Ok_0.0.last_revision_id == p.tables.last_revision_id,
{
}

/// What a row of a file leaves of the states: those of its file from its time on are its
/// content, all others are as before.
spec fn states_change(
    u: Tables,
    v: Tables,
    fingerprint: Seq<char>,
    path: Seq<char>,
    recorded_at_ms: i64,
    content: Option<Seq<char>>,
) -> bool {
    forall|f: Seq<char>, q: Seq<char>, at_ms: i64| #[trigger]
        state_in(v, f, q, at_ms) == (if f == fingerprint && q == path && recorded_at_ms
            <= at_ms {
            Ok(content)
        } else {
            state_in(u, f, q, at_ms)
        })
}

proof fn lemma_row_changes_states(
    u: Tables,
    n: RevisionView,
    fingerprint: Seq<char>,
    path: Seq<char>,
    content: Option<Seq<char>>,
    lane: Lane,
    r: LegacyRevisionView,
)
    requires
        u.wf(),
        comes_next(u, n),
        context_id_of(u.contexts, fingerprint) is Some,
        file_id_of(u.files, context_id_of(u.contexts, fingerprint)->Some_0, path) == Some(
            n.file_id,
        ),
        recorded_by(
            u,
            path,
            context_id_of(u.contexts, fingerprint)->Some_0,
            n.recorded_at_ms,
        ),
        with_revision(u, n) is Ok,
        n == migrated_row(n.id, lane, r, content),
        content is Some ==> r.event_type != EventType::Delete,
    ensures
        with_revision(u, n)->Ok_0.wf(),
        states_change(
            u,
            with_revision(u, n)->Ok_0,
            fingerprint,
            path,
            n.recorded_at_ms,
            content,
        ),
{
    let c = context_id_of(u.contexts, fingerprint)->Some_0;
    let v = with_revision(u, n)->Ok_0;
    lemma_adding_row(u, n, c, path, content);
    assert forall|f: Seq<char>, q: Seq<char>, at_ms: i64| #[trigger]
        state_in(v, f, q, at_ms) == (if f == fingerprint && q == path && n.recorded_at_ms
        <= at_ms {
        Ok(content)
    } else {
        state_in(u, f, q, at_ms)
    }) by {
        if context_id_of(u.contexts, f) is Some {
            let d = context_id_of(u.contexts, f)->Some_0;
            assert(state_at(v, q, at_ms, d) == (if d == c && q == path && n.recorded_at_ms
                <= at_ms {
                Ok(content)
            } else {
                state_at(u, q, at_ms, d)
            }));
            if f != fingerprint {
                lemma_context_numbers_differ(u, f, fingerprint);
            }
        }
    }
}

proof fn lemma_recorded_after_row(
    u: Tables,
    n: RevisionView,
    path: Seq<char>,
    c: i64,
    m: i64,
)
    requires
        with_revision(u, n) is Ok,
        recorded_by(u, path, c, m),
        n.recorded_at_ms <= m,
    ensures
        recorded_by(with_revision(u, n)->Ok_0, path, c, m),
{
    let v = with_revision(u, n)->Ok_0;
    if file_id_of(u.files, c, path) is Some {
        let id = file_id_of(u.files, c, path)->Some_0;
        assert forall|k: int|
            0 <= k < v.revisions.len() && (#[trigger] v.revisions[k]).file_id
                == id implies v.revisions[k].recorded_at_ms <= m by {
            if k < u.revisions.len() {
                assert(v.revisions[k] == u.revisions[k]);
            }
        }
    }
}

proof fn lemma_one_more_revision(
    t: Tables,
    before: Progress,
    p: Progress,
    path: Seq<char>,
    project_root: Seq<char>,
    rest: Seq<LegacyRevisionView>,
    r: LegacyRevisionView,
)
    requires
        file_holds(t, before, path, project_root, rest),
        rest.len() == 0 || rest.last().recorded_at_ms <= r.recorded_at_ms,
        advanced(before, path, project_root, r) == Ok::<Progress, StoreError>(p),
    ensures
        file_holds(t, p, path, project_root, rest.push(r)),
{
    let rs = rest.push(r);
    assert(rs.drop_last() == rest);
    lemma_entering_keeps_count(before, path, project_root, r);
    lemma_entering(t, before, path, project_root, rest, r);
    let (u, lanes, lane) = entered(before, path, project_root, r)->Ok_0;
    let fp = legacy_fingerprint(project_root, r);
    let c = context_id_of(u.contexts, fp)->Some_0;
    let n = migrated_row((u.last_revision_id + 1) as i64, lane, r, p.content);
    assert(recorded_by(before.tables, path, c, r.recorded_at_ms));
    assert(recorded_by(u, path, c, r.recorded_at_ms));
    lemma_row_changes_states(u, n, fp, path, p.content, lane, r);
    assert forall|f: Seq<char>, at_ms: i64| #[trigger]
        state_in(p.tables, f, path, at_ms) == legacy_state(rs, project_root, f, at_ms) by {
        assert(state_in(u, f, path, at_ms) == state_in(before.tables, f, path, at_ms));
        assert(state_in(before.tables, f, path, at_ms) == legacy_state(
            rest,
            project_root,
            f,
            at_ms,
        ));
    }
    assert forall|f: Seq<char>, other: Seq<char>, at_ms: i64|
        other != path implies #[trigger] state_in(p.tables, f, other, at_ms) == state_in(
        t,
        f,
        other,
        at_ms,
    ) by {
        assert(state_in(u, f, other, at_ms) == state_in(before.tables, f, other, at_ms));
        assert(state_in(before.tables, f, other, at_ms) == state_in(t, f, other, at_ms));
    }
    assert forall|other: Seq<char>|
        other != path && path_is_new(t, other) implies #[trigger] path_is_new(
        p.tables,
        other,
    ) by {
        assert(path_is_new(before.tables, other));
        assert(path_is_new(u, other));
        assert forall|d: i64| #[trigger] file_id_of(p.tables.files, d, other) is None by {
            assert(file_id_of(u.files, d, other) is None);
        }
    }
    assert forall|d: i64, m: i64| r.recorded_at_ms <= m implies #[trigger] recorded_by(
        p.tables,
        path,
        d,
        m,
    ) by {
        assert(recorded_by(before.tables, path, d, m));
        assert(recorded_by(u, path, d, m));
        lemma_recorded_after_row(u, n, path, d, m);
    }
}

proof fn lemma_file_reads_as_replayed(
    t: Tables,
    path: Seq<char>,
    project_root: Seq<char>,
    rs: Seq<LegacyRevisionView>,
)
    requires
        t.wf(),
        path_is_new(t, path),
        times_ascend(rs),
        file_progress(t, path, project_root, rs) is Ok,
    ensures
        file_holds(
            t,
            file_progress(t, path, project_root, rs)->Ok_0,
            path,
            project_root,
            rs,
        ),
    decreases rs.len(),
{
    let p = file_progress(t, path, project_root, rs)->Ok_0;
    if rs.len() == 0 {
        assert forall|fp: Seq<char>, at_ms: i64| #[trigger]
            state_in(p.tables, fp, path, at_ms) == legacy_state(rs, project_root, fp, at_ms) by {
            if context_id_of(t.contexts, fp) is Some {
                let c = context_id_of(t.contexts, fp)->Some_0;
                assert(file_id_of(t.files, c, path) is None);
            }
        }
        assert forall|c: i64, m: i64| #[trigger] recorded_by(p.tables, path, c, m) by {
            assert(file_id_of(t.files, c, path) is None);
        }
    } else {
        let rest = rs.drop_last();
        assert forall|i: int, j: int| 0 <= i < j < rest.len() implies (
        #[trigger] rest[i]).recorded_at_ms <= (#[trigger] rest[j]).recorded_at_ms by {
            assert(rs[i].recorded_at_ms <= rs[j].recorded_at_ms);
        }
        if rest.len() > 0 {
            assert(rs[rs.len() - 2].recorded_at_ms <= rs[rs.len() - 1].recorded_at_ms);
        }
        lemma_file_reads_as_replayed(t, path, project_root, rest);
        let before = file_progress(t, path, project_root, rest)->Ok_0;
        assert(rs == rest.push(rs.last()));
        lemma_one_more_revision(t, before, p, path, project_root, rest, rs.last());
    }
}

// ---------------------------------------------------------------------------
// The whole timeline
// ---------------------------------------------------------------------------

/// Whether no two legacy files have the same path.
pub open spec fn legacy_paths_differ(fs: Seq<LegacyFileView>) -> bool {
    forall|i: int, j: int|
        0 <= i < j < fs.len() ==> (#[trigger] fs[i]).path != (#[trigger] fs[j]).path
}

proof fn lemma_ordered_files_read_as_replayed(
    watcher: Option<WatcherView>,
    fs: Seq<LegacyFileView>,
    rs: Seq<LegacyRevisionView>,
    project_root: Seq<char>,
)
    requires
        legacy_paths_differ(fs),
        migrated(only_watcher(watcher), fs, rs, project_root) is Ok,
    ensures
        ({
            let t = migrated(only_watcher(watcher), fs, rs, project_root)->Ok_0;
            &&& t.wf()
            &&& forall|i: int, fp: Seq<char>, at_ms: i64|
                0 <= i < fs.len() ==> #[trigger] state_in(t, fp, fs[i].path, at_ms)
                    == legacy_state(legacy_history(rs, fs[i].id), project_root, fp, at_ms)
            &&& forall|path: Seq<char>|
                (forall|i: int| 0 <= i < fs.len() ==> (#[trigger] fs[i]).path != path)
                    ==> #[trigger] path_is_new(t, path)
        }),
    decreases fs.len(),
{
    let start = only_watcher(watcher);
    let t = migrated(start, fs, rs, project_root)->Ok_0;
    if fs.len() == 0 {
        assert(start.wf());
    } else {
        let rest = fs.drop_last();
        let f = fs.last();
        assert(fs[fs.len() - 1] == f);
        assert forall|i: int, j: int| 0 <= i < j < rest.len() implies (#[trigger] rest[i]).path
            != (#[trigger] rest[j]).path by {
            assert(fs[i].path != fs[j].path);
        }
        lemma_ordered_files_read_as_replayed(watcher, rest, rs, project_root);
        let u = migrated(start, rest, rs, project_root)->Ok_0;
        let h = legacy_history(rs, f.id);
        lemma_history_ascends(rs, f.id);
        assert forall|i: int| 0 <= i < rest.len() implies (#[trigger] rest[i]).path != f.path by {
            assert(fs[i].path != fs[fs.len() - 1].path);
        }
        assert(path_is_new(u, f.path));
        lemma_file_reads_as_replayed(u, f.path, project_root, h);
        assert forall|i: int, fp: Seq<char>, at_ms: i64|
            0 <= i < fs.len() implies #[trigger] state_in(t, fp, fs[i].path, at_ms)
            == legacy_state(legacy_history(rs, fs[i].id), project_root, fp, at_ms) by {
            if i < rest.len() {
                assert(rest[i] == fs[i]);
                assert(state_in(u, fp, rest[i].path, at_ms) == legacy_state(
                    legacy_history(rs, rest[i].id),
                    project_root,
                    fp,
                    at_ms,
                ));
            }
        }
        assert forall|path: Seq<char>|
            (forall|i: int| 0 <= i < fs.len() ==> (#[trigger] fs[i]).path != path)
            implies #[trigger] path_is_new(t, path) by {
            assert forall|i: int| 0 <= i < rest.len() implies (#[trigger] rest[i]).path != path by {
                assert(rest[i] == fs[i]);
            }
            assert(path_is_new(u, path));
        }
    }
}

proof fn lemma_placed_file(sorted: Seq<LegacyFileView>, f: LegacyFileView)
    ensures
        forall|x: LegacyFileView| #[trigger]
            file_placed(sorted, f).contains(x) <==> sorted.contains(x) || x == f,
        legacy_paths_differ(sorted) && (forall|i: int|
            0 <= i < sorted.len() ==> (#[trigger] sorted[i]).path != f.path)
            ==> legacy_paths_differ(file_placed(sorted, f)),
    decreases sorted.len(),
{
    broadcast use vstd::seq_lib::group_seq_properties;

    let placed = file_placed(sorted, f);
    if sorted.len() > 0 && text_before(f.path, sorted.last().path) {
        let rest = sorted.drop_last();
        let last = sorted.last();
        lemma_placed_file(rest, f);
        let inner = file_placed(rest, f);
        assert(sorted == rest.push(last));
        assert(placed == inner.push(last));
        if legacy_paths_differ(sorted) && (forall|i: int|
            0 <= i < sorted.len() ==> (#[trigger] sorted[i]).path != f.path) {
            assert(legacy_paths_differ(rest)) by {
                assert forall|i: int, j: int| 0 <= i < j < rest.len() implies (
                #[trigger] rest[i]).path != (#[trigger] rest[j]).path by {
                    assert(sorted[i].path != sorted[j].path);
                }
            }
            assert forall|i: int| 0 <= i < rest.len() implies (#[trigger] rest[i]).path
                != f.path by {
                assert(sorted[i].path != f.path);
            }
            assert forall|i: int, j: int| 0 <= i < j < placed.len() implies (
            #[trigger] placed[i]).path != (#[trigger] placed[j]).path by {
                if j < inner.len() {
                    assert(inner[i].path != inner[j].path);
                } else {
                    assert(inner.contains(inner[i]));
                    assert(sorted[sorted.len() - 1] == last);
                    if inner[i] != f {
                        let k = choose|k: int| 0 <= k < rest.len() && rest[k] == inner[i];
                        assert(sorted[k].path != sorted[sorted.len() - 1].path);
                    }
                }
            }
        }
    } else {
        assert(placed == sorted.push(f));
    }
}

proof fn lemma_files_by_path(fs: Seq<LegacyFileView>)
    ensures
        forall|x: LegacyFileView| #[trigger] by_path(fs).contains(x) <==> fs.contains(x),
        legacy_paths_differ(fs) ==> legacy_paths_differ(by_path(fs)),
    decreases fs.len(),
{
    broadcast use vstd::seq_lib::group_seq_properties;

    if fs.len() > 0 {
        let rest = fs.drop_last();
        let f = fs.last();
        assert(fs == rest.push(f));
        lemma_files_by_path(rest);
        lemma_placed_file(by_path(rest), f);
        if legacy_paths_differ(fs) {
            assert forall|i: int, j: int| 0 <= i < j < rest.len() implies (
            #[trigger] rest[i]).path != (#[trigger] rest[j]).path by {
                assert(fs[i].path != fs[j].path);
            }
            let sorted = by_path(rest);
            assert forall|i: int| 0 <= i < sorted.len() implies (#[trigger] sorted[i]).path
                != f.path by {
                assert(sorted.contains(sorted[i]));
                let k = choose|k: int| 0 <= k < rest.len() && rest[k] == sorted[i];
                assert(fs[k].path != fs[fs.len() - 1].path);
            }
        }
    }
}

/// A migrated timeline reads as the legacy one did: in every context and at every time a
/// file holds what replaying its legacy revisions up to the last one of that context by
/// then gives, and no other path is known. The first layout kept one file for each path.
pub proof fn law_migrated_files_read_as_before(
    watcher: Option<WatcherView>,
    fs: Seq<LegacyFileView>,
    rs: Seq<LegacyRevisionView>,
    project_root: Seq<char>,
)
    requires
        legacy_paths_differ(fs),
        migrated(only_watcher(watcher), by_path(fs), rs, project_root) is Ok,
    ensures
        ({
            let t = migrated(only_watcher(watcher), by_path(fs), rs, project_root)->Ok_0;
            &&& t.wf()
            &&& forall|i: int, fp: Seq<char>, at_ms: i64|
                0 <= i < fs.len() ==> #[trigger] state_in(t, fp, fs[i].path, at_ms)
                    == legacy_state(legacy_history(rs, fs[i].id), project_root, fp, at_ms)
            &&& forall|path: Seq<char>|
                (forall|i: int| 0 <= i < fs.len() ==> (#[trigger] fs[i]).path != path)
                    ==> #[trigger] path_is_new(t, path)
        }),
{
    let sorted = by_path(fs);
    let t = migrated(only_watcher(watcher), sorted, rs, project_root)->Ok_0;
    lemma_files_by_path(fs);
    lemma_ordered_files_read_as_replayed(watcher, sorted, rs, project_root);
    assert forall|i: int, fp: Seq<char>, at_ms: i64|
        0 <= i < fs.len() implies #[trigger] state_in(t, fp, fs[i].path, at_ms) == legacy_state(
        legacy_history(rs, fs[i].id),
        project_root,
        fp,
        at_ms,
    ) by {
        assert(fs.contains(fs[i]));
        assert(sorted.contains(fs[i]));
        let k = choose|k: int| 0 <= k < sorted.len() && sorted[k] == fs[i];
        assert(state_in(t, fp, sorted[k].path, at_ms) == legacy_state(
            legacy_history(rs, sorted[k].id),
            project_root,
            fp,
            at_ms,
        ));
    }
    assert forall|path: Seq<char>|
        (forall|i: int| 0 <= i < fs.len() ==> (#[trigger] fs[i]).path != path)
        implies #[trigger] path_is_new(t, path) by {
        assert forall|k: int| 0 <= k < sorted.len() implies (#[trigger] sorted[k]).path
            != path by {
            assert(sorted.contains(sorted[k]));
            let i = choose|i: int| 0 <= i < fs.len() && fs[i] == sorted[k];
            assert(fs[i].path != path);
        }
    }
}

// ---------------------------------------------------------------------------
// Rows
// ---------------------------------------------------------------------------

/// The legacy revisions of a file that were recorded in one context, oldest first, each with
/// what replaying all revisions of the file up to it gives.
pub open spec fn in_context(
    rs: Seq<LegacyRevisionView>,
    project_root: Seq<char>,
    fingerprint: Seq<char>,
) -> Seq<(LegacyRevisionView, Option<Seq<char>>)>
    decreases rs.len(),
{
    if rs.len() == 0 {
        Seq::empty()
    } else {
        let before = in_context(rs.drop_last(), project_root, fingerprint);
        if legacy_fingerprint(project_root, rs.last()) == fingerprint {
            before.push((rs.last(), replayed(rs)->Ok_0))
        } else {
            before
        }
    }
}

/// The rows of the file that the context of a fingerprint has under a path, in the order of
/// their numbers.
pub open spec fn rows_in(t: Tables, fingerprint: Seq<char>, path: Seq<char>) -> Seq<RevisionView> {
    match context_id_of(t.contexts, fingerprint) {
        Some(c) => match file_id_of(t.files, c, path) {
            Some(file_id) => revisions_of(t.revisions, file_id),
            None => Seq::empty(),
        },
        None => Seq::empty(),
    }
}

/// Whether a row is what a legacy revision becomes: with its time and event, under an
/// ordinal, resting on nothing, and with its content in full if there is one.
pub open spec fn becomes(
    row: RevisionView,
    legacy: (LegacyRevisionView, Option<Seq<char>>),
    ordinal: int,
) -> bool {
    &&& row.recorded_at_ms == legacy.0.recorded_at_ms
    &&& row.event_type == legacy.0.event_type
    &&& row.ordinal == ordinal
    &&& row.base_revision_id is None
    &&& match legacy.1 {
        None => {
            &&& row.event_type == EventType::Delete
            &&& row.storage_kind == StorageKind::Absent
            &&& row.content_hash is None
            &&& row.size_bytes is None
            &&& row.payload is None
        },
        Some(text) => {
            &&& row.event_type != EventType::Delete
            &&& row.storage_kind == StorageKind::Full
            &&& row.content_hash == Some(sha256_hex(text))
            &&& row.size_bytes == Some(byte_len(text) as i64)
            &&& row.payload == Some(encode_utf8(text))
        },
    }
}

/// Whether rows are what legacy revisions become, one by one, with ordinals from one on.
pub open spec fn rows_match(
    rows: Seq<RevisionView>,
    legacy: Seq<(LegacyRevisionView, Option<Seq<char>>)>,
) -> bool {
    &&& rows.len() == legacy.len()
    &&& forall|k: int| 0 <= k < rows.len() ==> becomes(#[trigger] rows[k], legacy[k], k + 1)
}

proof fn lemma_no_rows(rs: Seq<RevisionView>, file_id: i64)
    requires
        forall|i: int| 0 <= i < rs.len() ==> (#[trigger] rs[i]).file_id != file_id,
    ensures
        revisions_of(rs, file_id).len() == 0,
    decreases rs.len(),
{
    if rs.len() > 0 {
        let front = rs.drop_last();
        assert forall|i: int| 0 <= i < front.len() implies (#[trigger] front[i]).file_id
            != file_id by {
            assert(front[i] == rs[i]);
        }
        assert(rs[rs.len() - 1].file_id != file_id);
        lemma_no_rows(front, file_id);
    }
}

proof fn lemma_noting_context_keeps_rows(t: Tables, record: RecordView, seen_ms: i64)
    requires
        t.wf(),
        with_context(t, record, seen_ms) is Ok,
    ensures
        ({
            let u = with_context(t, record, seen_ms)->Ok_0.0;
            forall|fp: Seq<char>, q: Seq<char>| #[trigger]
                rows_in(u, fp, q) == rows_in(t, fp, q)
        }),
{
    let (u, id) = with_context(t, record, seen_ms)->Ok_0;
    lemma_noting_context(t, record, seen_ms);
    let known = context_id_of(t.contexts, record.fingerprint) is Some;
    assert forall|fp: Seq<char>, q: Seq<char>| #[trigger] rows_in(u, fp, q) == rows_in(
        t,
        fp,
        q,
    ) by {
        if fp == record.fingerprint && !known {
            lemma_file_id_of(t.files, id, q);
            if file_id_of(t.files, id, q) is Some {
                let i = choose|i: int|
                    0 <= i < t.files.len() && (#[trigger] t.files[i]).id == file_id_of(
                        t.files,
                        id,
                        q,
                    )->Some_0 && t.files[i].context_id == id && t.files[i].path == q;
                assert(has_context(t.contexts, t.files[i].context_id));
                let k = choose|k: int|
                    0 <= k < t.contexts.len() && (#[trigger] t.contexts[k]).id == id;
                assert(t.contexts[k].id <= t.last_context_id);
            }
        } else if fp != record.fingerprint {
            assert(context_id_of(u.contexts, fp) == context_id_of(t.contexts, fp));
        }
    }
}

proof fn lemma_noting_file_keeps_rows(t: Tables, context_id: i64, path: Seq<char>, seen_ms: i64)
    requires
        t.wf(),
        has_context(t.contexts, context_id),
        with_file(t, context_id, path, seen_ms) is Ok,
    ensures
        ({
            let u = with_file(t, context_id, path, seen_ms)->Ok_0.0;
            forall|fp: Seq<char>, q: Seq<char>| #[trigger]
                rows_in(u, fp, q) == rows_in(t, fp, q)
        }),
{
    let (u, id) = with_file(t, context_id, path, seen_ms)->Ok_0;
    lemma_noting_file(t, context_id, path, seen_ms);
    assert forall|fp: Seq<char>, q: Seq<char>| #[trigger] rows_in(u, fp, q) == rows_in(
        t,
        fp,
        q,
    ) by {
        if context_id_of(t.contexts, fp) is Some {
            let c = context_id_of(t.contexts, fp)->Some_0;
            if c == context_id && q == path {
                if file_id_of(t.files, c, q) is None {
                    assert forall|i: int| 0 <= i < t.revisions.len() implies (
                    #[trigger] t.revisions[i]).file_id != id by {
                        assert(has_file(t.files, t.revisions[i].file_id));
                        let k = choose|k: int|
                            0 <= k < t.files.len() && (#[trigger] t.files[k]).id
                                == t.revisions[i].file_id;
                        assert(t.files[k].id <= t.last_file_id);
                    }
                    lemma_no_rows(t.revisions, id);
                    assert(rows_in(u, fp, q) =~= rows_in(t, fp, q));
                }
            } else {
                assert(file_id_of(u.files, c, q) == file_id_of(t.files, c, q));
            }
        }
    }
}

/// What holds of the rows while a legacy file is migrated.
spec fn rows_hold(
    t: Tables,
    p: Progress,
    path: Seq<char>,
    project_root: Seq<char>,
    rs: Seq<LegacyRevisionView>,
) -> bool {
    &&& forall|fp: Seq<char>|
        rows_match(#[trigger] rows_in(p.tables, fp, path), in_context(rs, project_root, fp))
    &&& forall|fp: Seq<char>, other: Seq<char>|
        other != path ==> #[trigger] rows_in(p.tables, fp, other) == rows_in(t, fp, other)
    &&& forall|i: int, j: int|
        0 <= i < j < p.lanes.len() ==> (#[trigger] p.lanes[i]).fingerprint != (
        #[trigger] p.lanes[j]).fingerprint
    &&& forall|i: int|
        0 <= i < p.lanes.len() ==> (#[trigger] p.lanes[i]).ordinal == in_context(
            rs,
            project_root,
            p.lanes[i].fingerprint,
        ).len()
    &&& forall|fp: Seq<char>| #[trigger]
        lane_of(p.lanes, fp) == p.lanes.len() ==> in_context(rs, project_root, fp).len() == 0
}

proof fn lemma_entering_keeps_rows(
    p: Progress,
    path: Seq<char>,
    project_root: Seq<char>,
    r: LegacyRevisionView,
)
    requires
        p.tables.wf(),
        entered(p, path, project_root, r) is Ok,
    ensures
        ({
            let u = entered(p, path, project_root, r)->Ok_0.0;
            &&& u.revisions == p.tables.revisions
            &&& forall|fp: Seq<char>, q: Seq<char>| #[trigger]
                rows_in(u, fp, q) == rows_in(p.tables, fp, q)
        }),
{
    let record = record_of(project_root, r.git_context);
    if lane_of(p.lanes, record.fingerprint) >= p.lanes.len() {
        let (v, id) = with_context(p.tables, record, r.recorded_at_ms)->Ok_0;
        lemma_noting_context(p.tables, record, r.recorded_at_ms);
        lemma_noting_context_keeps_rows(p.tables, record, r.recorded_at_ms);
        lemma_noting_file(v, id, path, r.recorded_at_ms);
        lemma_noting_file_keeps_rows(v, id, path, r.recorded_at_ms);
        let u = entered(p, path, project_root, r)->Ok_0.0;
        assert forall|fp: Seq<char>, q: Seq<char>| #[trigger] rows_in(u, fp, q) == rows_in(
            p.tables,
            fp,
            q,
        ) by {
            assert(rows_in(v, fp, q) == rows_in(p.tables, fp, q));
        }
    }
}

/// A fingerprint that some lane has is found among the lanes.
proof fn lemma_lane_is_found(lanes: Seq<Lane>, fingerprint: Seq<char>, k: int)
    requires
        0 <= k < lanes.len(),
        lanes[k].fingerprint == fingerprint,
    ensures
        lane_of(lanes, fingerprint) < lanes.len(),
    decreases lanes.len(),
{
    lemma_lane_of(lanes.drop_last(), fingerprint);
    if k < lanes.len() - 1 {
        assert(lanes.drop_last()[k] == lanes[k]);
        lemma_lane_is_found(lanes.drop_last(), fingerprint, k);
    }
}

proof fn lemma_pushed_rows(
    u: Tables,
    v: Tables,
    n: RevisionView,
    fingerprint: Seq<char>,
    path: Seq<char>,
)
    requires
        u.wf(),
        v.contexts == u.contexts,
        v.files == u.files,
        v.revisions == u.revisions.push(n),
        context_id_of(u.contexts, fingerprint) is Some,
        file_id_of(u.files, context_id_of(u.contexts, fingerprint)->Some_0, path) == Some(
            n.file_id,
        ),
    ensures
        rows_in(v, fingerprint, path) == rows_in(u, fingerprint, path).push(n),
        forall|fp: Seq<char>, q: Seq<char>|
            (fp != fingerprint || q != path) ==> #[trigger] rows_in(v, fp, q) == rows_in(u, fp, q),
{
    let c = context_id_of(u.contexts, fingerprint)->Some_0;
    assert(v.revisions.drop_last() =~= u.revisions);
    assert forall|fp: Seq<char>, q: Seq<char>|
        (fp != fingerprint || q != path) implies #[trigger] rows_in(v, fp, q) == rows_in(
        u,
        fp,
        q,
    ) by {
        if context_id_of(u.contexts, fp) is Some {
            let d = context_id_of(u.contexts, fp)->Some_0;
            if fp != fingerprint {
                lemma_context_numbers_differ(u, fp, fingerprint);
            }
            if file_id_of(u.files, d, q) is Some {
                lemma_files_differ(u, d, q, c, path);
            }
        }
    }
}

proof fn lemma_file_rows(
    t: Tables,
    path: Seq<char>,
    project_root: Seq<char>,
    rs: Seq<LegacyRevisionView>,
)
    requires
        t.wf(),
        path_is_new(t, path),
        times_ascend(rs),
        file_progress(t, path, project_root, rs) is Ok,
    ensures
        rows_hold(
            t,
            file_progress(t, path, project_root, rs)->Ok_0,
            path,
            project_root,
            rs,
        ),
    decreases rs.len(),
{
    let p = file_progress(t, path, project_root, rs)->Ok_0;
    if rs.len() == 0 {
        assert forall|fp: Seq<char>|
            rows_match(
                #[trigger] rows_in(p.tables, fp, path),
                in_context(rs, project_root, fp),
            ) by {
            if context_id_of(t.contexts, fp) is Some {
                assert(file_id_of(
                    t.files,
                    context_id_of(t.contexts, fp)->Some_0,
                    path,
                ) is None);
            }
        }
    } else {
        let rest = rs.drop_last();
        let r = rs.last();
        assert forall|i: int, j: int| 0 <= i < j < rest.len() implies (
        #[trigger] rest[i]).recorded_at_ms <= (#[trigger] rest[j]).recorded_at_ms by {
            assert(rs[i].recorded_at_ms <= rs[j].recorded_at_ms);
        }
        lemma_file_rows(t, path, project_root, rest);
        lemma_file_reads_as_replayed(t, path, project_root, rest);
        lemma_file_reads_as_replayed(t, path, project_root, rs);
        let before = file_progress(t, path, project_root, rest)->Ok_0;
        lemma_rows_step(t, before, p, path, project_root, rs);
    }
}

proof fn lemma_rows_step(
    t: Tables,
    before: Progress,
    p: Progress,
    path: Seq<char>,
    project_root: Seq<char>,
    rs: Seq<LegacyRevisionView>,
)
    requires
        rs.len() > 0,
        file_holds(t, before, path, project_root, rs.drop_last()),
        rows_hold(t, before, path, project_root, rs.drop_last()),
        replayed(rs) == Ok::<Option<Seq<char>>, StoreError>(p.content),
        advanced(before, path, project_root, rs.last()) == Ok::<Progress, StoreError>(p),
    ensures
        rows_hold(t, p, path, project_root, rs),
{
    let rest = rs.drop_last();
    let r = rs.last();
    lemma_entering_keeps_count(before, path, project_root, r);
    lemma_entering(t, before, path, project_root, rest, r);
    lemma_entering_keeps_rows(before, path, project_root, r);
    let (u, lanes, lane) = entered(before, path, project_root, r)->Ok_0;
    let fp = legacy_fingerprint(project_root, r);
    let at = lane_of(before.lanes, fp);
    lemma_lane_of(before.lanes, fp);
    let n = migrated_row((u.last_revision_id + 1) as i64, lane, r, p.content);
    let old = in_context(rest, project_root, fp);
    assert(lane.ordinal == old.len() + 1) by {
        if at < before.lanes.len() {
            assert(before.lanes[at].ordinal == old.len());
        }
    }
    lemma_pushed_rows(u, p.tables, n, fp, path);
    assert forall|f: Seq<char>|
        rows_match(#[trigger] rows_in(p.tables, f, path), in_context(rs, project_root, f)) by {
        assert(rows_in(u, f, path) == rows_in(before.tables, f, path));
        assert(rows_match(rows_in(before.tables, f, path), in_context(rest, project_root, f)));
        if f == fp {
            let rows = rows_in(p.tables, fp, path);
            let legacy = in_context(rs, project_root, fp);
            assert(becomes(n, (r, p.content), (old.len() + 1) as int));
            assert forall|k: int| 0 <= k < rows.len() implies becomes(
                #[trigger] rows[k],
                legacy[k],
                k + 1,
            ) by {
                if k < old.len() {
                    assert(rows[k] == rows_in(before.tables, fp, path)[k]);
                    assert(legacy[k] == old[k]);
                }
            }
        }
    }
    assert forall|f: Seq<char>, other: Seq<char>| other != path implies #[trigger] rows_in(
        p.tables,
        f,
        other,
    ) == rows_in(t, f, other) by {
        assert(rows_in(u, f, other) == rows_in(before.tables, f, other));
        assert(rows_in(before.tables, f, other) == rows_in(t, f, other));
    }
    assert forall|i: int, j: int| 0 <= i < j < lanes.len() implies (
    #[trigger] lanes[i]).fingerprint != (#[trigger] lanes[j]).fingerprint by {
        if at < before.lanes.len() {
            assert(before.lanes[i].fingerprint == lanes[i].fingerprint);
            assert(before.lanes[j].fingerprint == lanes[j].fingerprint);
        } else {
            assert(before.lanes[i] == lanes[i]);
            if j < before.lanes.len() {
                assert(before.lanes[j] == lanes[j]);
            } else {
                lemma_lane_is_not(before.lanes, fp, i);
            }
        }
    }
    assert forall|i: int| 0 <= i < lanes.len() implies (#[trigger] lanes[i]).ordinal == in_context(
        rs,
        project_root,
        lanes[i].fingerprint,
    ).len() by {
        if i < before.lanes.len() && i != at {
            assert(before.lanes[i] == lanes[i]);
            if at < before.lanes.len() {
                if i < at {
                    assert(before.lanes[i].fingerprint != before.lanes[at].fingerprint);
                } else {
                    assert(before.lanes[at].fingerprint != before.lanes[i].fingerprint);
                }
            } else {
                lemma_lane_is_not(before.lanes, fp, i);
            }
        }
    }
    assert forall|f: Seq<char>| #[trigger] lane_of(lanes, f) == lanes.len() implies in_context(
        rs,
        project_root,
        f,
    ).len() == 0 by {
        lemma_lane_of(lanes, f);
        lemma_lane_of(before.lanes, f);
        if f == fp {
            let k = if at < before.lanes.len() {
                at
            } else {
                before.lanes.len() as int
            };
            lemma_lane_is_found(lanes, fp, k);
        } else if lane_of(before.lanes, f) < before.lanes.len() {
            let k = lane_of(before.lanes, f);
            assert(lanes[k].fingerprint == f);
            lemma_lane_is_found(lanes, f, k);
        }
    }
}

proof fn lemma_ordered_files_rows(
    watcher: Option<WatcherView>,
    fs: Seq<LegacyFileView>,
    rs: Seq<LegacyRevisionView>,
    project_root: Seq<char>,
)
    requires
        legacy_paths_differ(fs),
        migrated(only_watcher(watcher), fs, rs, project_root) is Ok,
    ensures
        forall|i: int, fp: Seq<char>|
            0 <= i < fs.len() ==> rows_match(
                #[trigger] rows_in(
                    migrated(only_watcher(watcher), fs, rs, project_root)->Ok_0,
                    fp,
                    fs[i].path,
                ),
                in_context(legacy_history(rs, fs[i].id), project_root, fp),
            ),
    decreases fs.len(),
{
    let start = only_watcher(watcher);
    let t = migrated(start, fs, rs, project_root)->Ok_0;
    if fs.len() > 0 {
        let rest = fs.drop_last();
        let f = fs.last();
        assert(fs[fs.len() - 1] == f);
        assert forall|i: int, j: int| 0 <= i < j < rest.len() implies (#[trigger] rest[i]).path
            != (#[trigger] rest[j]).path by {
            assert(fs[i].path != fs[j].path);
        }
        lemma_ordered_files_rows(watcher, rest, rs, project_root);
        lemma_ordered_files_read_as_replayed(watcher, rest, rs, project_root);
        let u = migrated(start, rest, rs, project_root)->Ok_0;
        lemma_history_ascends(rs, f.id);
        assert forall|i: int| 0 <= i < rest.len() implies (#[trigger] rest[i]).path != f.path by {
            assert(fs[i].path != fs[fs.len() - 1].path);
        }
        assert(path_is_new(u, f.path));
        lemma_file_rows(u, f.path, project_root, legacy_history(rs, f.id));
        assert forall|i: int, fp: Seq<char>| 0 <= i < fs.len() implies rows_match(
            #[trigger] rows_in(t, fp, fs[i].path),
            in_context(legacy_history(rs, fs[i].id), project_root, fp),
        ) by {
            if i < rest.len() {
                assert(rest[i] == fs[i]);
                assert(rest[i].path != f.path);
                assert(rows_match(
                    rows_in(u, fp, rest[i].path),
                    in_context(legacy_history(rs, rest[i].id), project_root, fp),
                ));
            }
        }
    }
}

/// A migrated timeline has, for each file and context, one row for each legacy revision of
/// that file in that context, in the order of their times and then their numbers: with the
/// same time and event, with ordinals from one on, resting on nothing, and with the content
/// that replaying all revisions of the file up to it gives.
pub proof fn law_migrated_rows_follow_the_legacy_ones(
    watcher: Option<WatcherView>,
    fs: Seq<LegacyFileView>,
    rs: Seq<LegacyRevisionView>,
    project_root: Seq<char>,
)
    requires
        legacy_paths_differ(fs),
        migrated(only_watcher(watcher), by_path(fs), rs, project_root) is Ok,
    ensures
        forall|i: int, fp: Seq<char>|
            0 <= i < fs.len() ==> rows_match(
                #[trigger] rows_in(
                    migrated(only_watcher(watcher), by_path(fs), rs, project_root)->Ok_0,
                    fp,
                    fs[i].path,
                ),
                in_context(legacy_history(rs, fs[i].id), project_root, fp),
            ),
        forall|i: int|
            0 <= i < fs.len() ==> times_ascend(legacy_history(rs, (#[trigger] fs[i]).id)),
{
    let sorted = by_path(fs);
    let t = migrated(only_watcher(watcher), sorted, rs, project_root)->Ok_0;
    lemma_files_by_path(fs);
    lemma_ordered_files_rows(watcher, sorted, rs, project_root);
    assert forall|i: int, fp: Seq<char>| 0 <= i < fs.len() implies rows_match(
        #[trigger] rows_in(t, fp, fs[i].path),
        in_context(legacy_history(rs, fs[i].id), project_root, fp),
    ) by {
        assert(fs.contains(fs[i]));
        assert(sorted.contains(fs[i]));
        let k = choose|k: int| 0 <= k < sorted.len() && sorted[k] == fs[i];
        assert(rows_match(
            rows_in(t, fp, sorted[k].path),
            in_context(legacy_history(rs, sorted[k].id), project_root, fp),
        ));
    }
    assert forall|i: int| 0 <= i < fs.len() implies times_ascend(
        legacy_history(rs, (#[trigger] fs[i]).id),
    ) by {
        lemma_history_ascends(rs, fs[i].id);
    }
}

// ---------------------------------------------------------------------------
// When a migration succeeds
// ---------------------------------------------------------------------------

/// The greatest number that was given in the tables is no greater than this.
spec fn numbers_up_to(t: Tables, n: int) -> bool {
    &&& t.last_context_id <= n
    &&& t.last_file_id <= n
    &&& t.last_revision_id <= n
}

proof fn lemma_row_of_file(rs: Seq<RevisionView>, file_id: i64, i: int)
    requires
        0 <= i < rs.len(),
        rs[i].file_id == file_id,
    ensures
        revisions_of(rs, file_id).contains(rs[i]),
    decreases rs.len(),
{
    let rest = rs.drop_last();
    if i < rest.len() {
        assert(rest[i] == rs[i]);
        lemma_row_of_file(rest, file_id, i);
        let listed = revisions_of(rest, file_id);
        let k = choose|k: int| 0 <= k < listed.len() && listed[k] == rs[i];
        assert(revisions_of(rs, file_id)[k] == rs[i]);
    } else {
        let listed = revisions_of(rs, file_id);
        assert(listed[listed.len() - 1] == rs[i]);
    }
}

proof fn lemma_step_succeeds(
    t: Tables,
    before: Progress,
    path: Seq<char>,
    project_root: Seq<char>,
    rs: Seq<LegacyRevisionView>,
    n: int,
)
    requires
        rs.len() > 0,
        file_holds(t, before, path, project_root, rs.drop_last()),
        rows_hold(t, before, path, project_root, rs.drop_last()),
        replayed(rs) is Ok,
        numbers_up_to(before.tables, n),
        n < i64::MAX,
    ensures
        advanced(before, path, project_root, rs.last()) is Ok,
        numbers_up_to(advanced(before, path, project_root, rs.last())->Ok_0.tables, n + 1),
{
    let rest = rs.drop_last();
    let r = rs.last();
    let record = record_of(project_root, r.git_context);
    assert(with_context(before.tables, record, r.recorded_at_ms) is Ok);
    lemma_noting_context(before.tables, record, r.recorded_at_ms);
    assert(entered(before, path, project_root, r) is Ok);
    lemma_entering_keeps_count(before, path, project_root, r);
    lemma_entering(t, before, path, project_root, rest, r);
    lemma_entering_keeps_rows(before, path, project_root, r);
    let (u, lanes, lane) = entered(before, path, project_root, r)->Ok_0;
    let fp = legacy_fingerprint(project_root, r);
    let at = lane_of(before.lanes, fp);
    lemma_lane_of(before.lanes, fp);
    let old = in_context(rest, project_root, fp);
    assert(lane.ordinal == old.len() + 1) by {
        if at < before.lanes.len() {
            assert(before.lanes[at].ordinal == old.len());
        }
    }
    let rows = rows_in(u, fp, path);
    assert(rows == rows_in(before.tables, fp, path));
    assert(rows_match(rows_in(before.tables, fp, path), old));
    assert(!ordinal_taken(u.revisions, lane.file_id, lane.ordinal as int)) by {
        if ordinal_taken(u.revisions, lane.file_id, lane.ordinal as int) {
            let i = choose|i: int|
                0 <= i < u.revisions.len() && (#[trigger] u.revisions[i]).file_id == lane.file_id
                    && u.revisions[i].ordinal == lane.ordinal;
            lemma_row_of_file(u.revisions, lane.file_id, i);
            let k = choose|k: int| 0 <= k < rows.len() && rows[k] == u.revisions[i];
            assert(becomes(rows[k], old[k], k + 1));
        }
    }
}

proof fn lemma_file_succeeds(
    t: Tables,
    path: Seq<char>,
    project_root: Seq<char>,
    rs: Seq<LegacyRevisionView>,
    n: int,
)
    requires
        t.wf(),
        path_is_new(t, path),
        times_ascend(rs),
        replayed(rs) is Ok,
        numbers_up_to(t, n),
        n + rs.len() <= i64::MAX,
    ensures
        file_progress(t, path, project_root, rs) is Ok,
        numbers_up_to(file_progress(t, path, project_root, rs)->Ok_0.tables, n + rs.len()),
    decreases rs.len(),
{
    if rs.len() > 0 {
        let rest = rs.drop_last();
        assert forall|i: int, j: int| 0 <= i < j < rest.len() implies (
        #[trigger] rest[i]).recorded_at_ms <= (#[trigger] rest[j]).recorded_at_ms by {
            assert(rs[i].recorded_at_ms <= rs[j].recorded_at_ms);
        }
        lemma_file_succeeds(t, path, project_root, rest, n);
        lemma_file_reads_as_replayed(t, path, project_root, rest);
        lemma_file_rows(t, path, project_root, rest);
        let before = file_progress(t, path, project_root, rest)->Ok_0;
        lemma_step_succeeds(t, before, path, project_root, rs, n + rest.len());
    }
}

proof fn lemma_history_is_no_longer(rs: Seq<LegacyRevisionView>, file_id: i64)
    ensures
        legacy_history(rs, file_id).len() <= rs.len(),
    decreases rs.len(),
{
    if rs.len() > 0 {
        lemma_history_is_no_longer(rs.drop_last(), file_id);
        lemma_placed_is_one_longer(legacy_history(rs.drop_last(), file_id), rs.last());
    }
}

proof fn lemma_placed_is_one_longer(sorted: Seq<LegacyRevisionView>, r: LegacyRevisionView)
    ensures
        legacy_placed(sorted, r).len() == sorted.len() + 1,
    decreases sorted.len(),
{
    if sorted.len() > 0 && legacy_newer(sorted.last(), r) {
        lemma_placed_is_one_longer(sorted.drop_last(), r);
    }
}

proof fn lemma_files_succeed(
    watcher: Option<WatcherView>,
    fs: Seq<LegacyFileView>,
    rs: Seq<LegacyRevisionView>,
    project_root: Seq<char>,
)
    requires
        legacy_paths_differ(fs),
        forall|i: int| 0 <= i < fs.len() ==> replayed(legacy_history(rs, (#[trigger] fs[i]).id)) is Ok,
        fs.len() * rs.len() <= i64::MAX,
    ensures
        migrated(only_watcher(watcher), fs, rs, project_root) is Ok,
        numbers_up_to(
            migrated(only_watcher(watcher), fs, rs, project_root)->Ok_0,
            (fs.len() * rs.len()) as int,
        ),
    decreases fs.len(),
{
    let start = only_watcher(watcher);
    if fs.len() > 0 {
        let rest = fs.drop_last();
        let f = fs.last();
        assert(fs[fs.len() - 1] == f);
        assert(fs.len() * rs.len() == rest.len() * rs.len() + rs.len()) by (nonlinear_arith)
            requires
                fs.len() == rest.len() + 1,
        ;
        assert forall|i: int, j: int| 0 <= i < j < rest.len() implies (#[trigger] rest[i]).path
            != (#[trigger] rest[j]).path by {
            assert(fs[i].path != fs[j].path);
        }
        assert forall|i: int| 0 <= i < rest.len() implies replayed(
            legacy_history(rs, (#[trigger] rest[i]).id),
        ) is Ok by {
            assert(rest[i] == fs[i]);
        }
        lemma_files_succeed(watcher, rest, rs, project_root);
        lemma_ordered_files_read_as_replayed(watcher, rest, rs, project_root);
        let u = migrated(start, rest, rs, project_root)->Ok_0;
        lemma_history_ascends(rs, f.id);
        lemma_history_is_no_longer(rs, f.id);
        assert forall|i: int| 0 <= i < rest.len() implies (#[trigger] rest[i]).path != f.path by {
            assert(fs[i].path != fs[fs.len() - 1].path);
        }
        assert(path_is_new(u, f.path));
        lemma_file_succeeds(
            u,
            f.path,
            project_root,
            legacy_history(rs, f.id),
            (rest.len() * rs.len()) as int,
        );
    } else {
        assert(fs.len() * rs.len() == 0) by (nonlinear_arith)
            requires
                fs.len() == 0,
        ;
    }
}

/// A timeline of the first layout is migrated wherever each of its files can be replayed.
pub proof fn law_readable_timelines_are_migrated(
    watcher: Option<WatcherView>,
    fs: Seq<LegacyFileView>,
    rs: Seq<LegacyRevisionView>,
    project_root: Seq<char>,
)
    requires
        legacy_paths_differ(fs),
        forall|i: int| 0 <= i < fs.len() ==> replayed(legacy_history(rs, (#[trigger] fs[i]).id)) is Ok,
        fs.len() * rs.len() <= i64::MAX,
    ensures
        migrated(only_watcher(watcher), by_path(fs), rs, project_root) is Ok,
{
    let sorted = by_path(fs);
    lemma_files_by_path(fs);
    lemma_by_path_is_as_long(fs);
    assert forall|i: int| 0 <= i < sorted.len() implies replayed(
        legacy_history(rs, (#[trigger] sorted[i]).id),
    ) is Ok by {
        assert(sorted.contains(sorted[i]));
        assert(fs.contains(sorted[i]));
    }
    lemma_files_succeed(watcher, sorted, rs, project_root);
}

proof fn lemma_by_path_is_as_long(fs: Seq<LegacyFileView>)
    ensures
        by_path(fs).len() == fs.len(),
    decreases fs.len(),
{
    if fs.len() > 0 {
        lemma_by_path_is_as_long(fs.drop_last());
        lemma_placed_file_is_one_longer(by_path(fs.drop_last()), fs.last());
    }
}

proof fn lemma_placed_file_is_one_longer(sorted: Seq<LegacyFileView>, f: LegacyFileView)
    ensures
        file_placed(sorted, f).len() == sorted.len() + 1,
    decreases sorted.len(),
{
    if sorted.len() > 0 && text_before(f.path, sorted.last().path) {
        lemma_placed_file_is_one_longer(sorted.drop_last(), f);
    }
}

} // verus!
