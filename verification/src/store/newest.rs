//! The newest revision of each file: what recordings make of it, what they leave of it, and
//! which files are listed by it.
use vstd::prelude::*;

use crate::store::laws::{lemma_live_path_is_listed, newest_of};
use crate::store::listing::{is_live, live_paths, live_paths_in, under, with_deletes};
use crate::store::lookup::{content_of, file_id_of, latest, lemma_file_id_of, lemma_latest_at};
use crate::store::record::{
    lemma_seen_keeps_numbers,
    unchanged,
    was_there,
    with_context_seen,
    with_delete,
    with_file,
    with_file_seen,
    with_revision,
    with_text,
};
use crate::store::rows::{FileView, RevisionView};
use crate::store::sound::{
    above_all,
    all_based,
    lemma_content_push,
    lemma_file_times,
    lemma_files_differ,
    lemma_no_revision_of_new_file,
    lemma_pushed_is_latest,
    lemma_with_file_finds,
    recorded_by,
};
use crate::store::tables::{base_holds, has_context, has_file, paths_differ, StoreError, Tables};
use crate::text::lemma_sorted_texts;

verus! {

// ---------------------------------------------------------------------------
// Rows stay in agreement
// ---------------------------------------------------------------------------

proof fn lemma_seen_agrees(t: Tables, context_id: i64, seen_ms: i64)
    requires
        t.wf(),
    ensures
        with_context_seen(t, context_id, seen_ms).wf(),
{
    let u = with_context_seen(t, context_id, seen_ms);
    lemma_seen_keeps_numbers(t, context_id, seen_ms);
    assert(forall|i: int|
        0 <= i < t.contexts.len() ==> (#[trigger] u.contexts[i]).id == t.contexts[i].id
            && u.contexts[i].record == t.contexts[i].record);
    assert forall|i: int, j: int| 0 <= i < j < u.contexts.len() implies (
    #[trigger] u.contexts[i]).record.fingerprint != (#[trigger] u.contexts[j]).record.fingerprint by {
        assert(t.contexts[i].record.fingerprint != t.contexts[j].record.fingerprint);
    }
    assert forall|i: int, j: int| 0 <= i < j < u.contexts.len() implies (
    #[trigger] u.contexts[i]).id < (#[trigger] u.contexts[j]).id by {
        assert(t.contexts[i].id < t.contexts[j].id);
    }
    assert forall|i: int| 0 <= i < u.files.len() implies has_context(
        u.contexts,
        (#[trigger] u.files[i]).context_id,
    ) by {
        assert(has_context(t.contexts, t.files[i].context_id));
    }
}

proof fn lemma_file_agrees(t: Tables, context_id: i64, path: Seq<char>, seen_ms: i64)
    requires
        t.wf(),
        with_file(t, context_id, path, seen_ms) is Ok,
    ensures
        with_file(t, context_id, path, seen_ms)->Ok_0.0.wf(),
        has_file(
            with_file(t, context_id, path, seen_ms)->Ok_0.0.files,
            with_file(t, context_id, path, seen_ms)->Ok_0.1,
        ),
{
    let (u, id) = with_file(t, context_id, path, seen_ms)->Ok_0;
    lemma_file_id_of(t.files, context_id, path);
    assert(forall|i: int|
        0 <= i < t.files.len() ==> (#[trigger] u.files[i]).id == t.files[i].id
            && u.files[i].context_id == t.files[i].context_id && u.files[i].path
            == t.files[i].path);
    assert forall|i: int, j: int| 0 <= i < j < u.files.len() implies !((
    #[trigger] u.files[i]).context_id == (#[trigger] u.files[j]).context_id && u.files[i].path
        == u.files[j].path) by {
        assert(t.files[i].path == u.files[i].path);
        if j < t.files.len() {
            assert(t.files[j].path == u.files[j].path);
        }
    }
    if file_id_of(t.files, context_id, path) is Some {
        let i = choose|i: int|
            0 <= i < t.files.len() && (#[trigger] t.files[i]).id == id && t.files[i].context_id
                == context_id && t.files[i].path == path;
        assert(u.files[i].id == id);
    } else {
        assert(u.files[t.files.len() as int].id == id);
    }
    assert forall|i: int, j: int| 0 <= i < j < u.files.len() implies (#[trigger] u.files[i]).id < (
    #[trigger] u.files[j]).id by {
        assert(t.files[i].id == u.files[i].id);
        if j < t.files.len() {
            assert(t.files[j].id == u.files[j].id);
        }
    }
    assert forall|i: int| 0 <= i < u.files.len() implies has_context(
        u.contexts,
        (#[trigger] u.files[i]).context_id,
    ) by {
        if i < t.files.len() {
            assert(has_context(t.contexts, t.files[i].context_id));
        }
    }
    assert forall|i: int| 0 <= i < u.revisions.len() implies has_file(
        u.files,
        (#[trigger] u.revisions[i]).file_id,
    ) by {
        assert(has_file(t.files, t.revisions[i].file_id));
        let k = choose|k: int|
            0 <= k < t.files.len() && (#[trigger] t.files[k]).id == t.revisions[i].file_id;
        assert(u.files[k].id == t.files[k].id);
    }
}

proof fn lemma_revision_agrees(t: Tables, n: RevisionView)
    requires
        t.wf(),
        with_revision(t, n) is Ok,
        n.id == t.last_revision_id + 1,
        has_file(t.files, n.file_id),
        base_holds(t.revisions, n),
    ensures
        with_revision(t, n)->Ok_0.wf(),
{
    let u = with_revision(t, n)->Ok_0;
    let rs = t.revisions;
    assert(u.revisions == rs.push(n));
    assert forall|i: int| 0 <= i < u.revisions.len() implies {
        &&& has_file(u.files, (#[trigger] u.revisions[i]).file_id)
        &&& base_holds(u.revisions, u.revisions[i])
    } by {
        let r = u.revisions[i];
        if i < rs.len() {
            assert(rs[i] == r);
            assert(base_holds(rs, rs[i]));
        }
        if r.base_revision_id is Some {
            let b = r.base_revision_id->Some_0;
            let j = choose|j: int| 0 <= j < rs.len() && (#[trigger] rs[j]).id == b;
            assert(u.revisions[j] == rs[j]);
        }
    }
    assert forall|i: int, j: int| 0 <= i < j < u.revisions.len() implies !((
    #[trigger] u.revisions[i]).file_id == (#[trigger] u.revisions[j]).file_id
        && u.revisions[i].ordinal == u.revisions[j].ordinal) by {
        assert(u.revisions[i] == rs[i]);
        if j < rs.len() {
            assert(u.revisions[j] == rs[j]);
        }
    }
}

/// Recording a content keeps the rows in agreement.
pub proof fn law_text_keeps_agreement(
    t: Tables,
    path: Seq<char>,
    content: Seq<char>,
    recorded_at_ms: i64,
    context_id: i64,
    interval: i64,
)
    requires
        t.wf(),
        with_text(t, path, content, recorded_at_ms, context_id, interval) is Ok,
    ensures
        with_text(t, path, content, recorded_at_ms, context_id, interval)->Ok_0.0.wf(),
{
    let seen = with_context_seen(t, context_id, recorded_at_ms);
    lemma_seen_agrees(t, context_id, recorded_at_ms);
    lemma_file_agrees(seen, context_id, path, recorded_at_ms);
    let (u, file_id) = with_file(seen, context_id, path, recorded_at_ms)->Ok_0;
    let (v, added) = with_text(t, path, content, recorded_at_ms, context_id, interval)->Ok_0;
    if added {
        let n = v.revisions.last();
        assert(v.revisions == u.revisions.push(n));
        assert(with_revision(u, n) == Ok::<Tables, StoreError>(v));
        lemma_latest_at(u.revisions, file_id, i64::MAX);
        if n.base_revision_id is Some {
            let newest = latest(u.revisions, file_id)->Some_0;
            let i = choose|i: int| 0 <= i < u.revisions.len() && #[trigger] u.revisions[i] == newest;
            assert(u.revisions[i].id == n.base_revision_id->Some_0);
        }
        lemma_revision_agrees(u, n);
    }
}

/// Recording an end keeps the rows in agreement.
pub proof fn law_delete_keeps_agreement(
    t: Tables,
    path: Seq<char>,
    recorded_at_ms: i64,
    context_id: i64,
)
    requires
        t.wf(),
        with_delete(t, path, recorded_at_ms, context_id) is Ok,
    ensures
        with_delete(t, path, recorded_at_ms, context_id)->Ok_0.0.wf(),
{
    let u = with_context_seen(t, context_id, recorded_at_ms);
    lemma_seen_agrees(t, context_id, recorded_at_ms);
    let (w, added) = with_delete(t, path, recorded_at_ms, context_id)->Ok_0;
    if file_id_of(u.files, context_id, path) is Some {
        let file_id = file_id_of(u.files, context_id, path)->Some_0;
        let v = with_file_seen(u, file_id, recorded_at_ms);
        lemma_file_id_of(u.files, context_id, path);
        assert(forall|i: int|
            0 <= i < u.files.len() ==> (#[trigger] v.files[i]).id == u.files[i].id
                && v.files[i].context_id == u.files[i].context_id && v.files[i].path
                == u.files[i].path);
        assert(v.wf()) by {
            assert forall|i: int, j: int| 0 <= i < j < v.files.len() implies !((
            #[trigger] v.files[i]).context_id == (#[trigger] v.files[j]).context_id
                && v.files[i].path == v.files[j].path) by {
                assert(u.files[i].path == v.files[i].path && u.files[j].path == v.files[j].path);
            }
            assert forall|i: int, j: int| 0 <= i < j < v.files.len() implies (
            #[trigger] v.files[i]).id < (#[trigger] v.files[j]).id by {
                assert(u.files[i].id < u.files[j].id);
            }
            assert forall|i: int| 0 <= i < v.revisions.len() implies has_file(
                v.files,
                (#[trigger] v.revisions[i]).file_id,
            ) by {
                assert(has_file(u.files, u.revisions[i].file_id));
                let k = choose|k: int|
                    0 <= k < u.files.len() && (#[trigger] u.files[k]).id == u.revisions[i].file_id;
                assert(v.files[k].id == u.files[k].id);
            }
        }
        let k = choose|k: int|
            0 <= k < u.files.len() && (#[trigger] u.files[k]).id == file_id
                && u.files[k].context_id == context_id && u.files[k].path == path;
        assert(v.files[k].id == file_id);
        if added {
            let n = w.revisions.last();
            assert(w.revisions == v.revisions.push(n));
            lemma_revision_agrees(v, n);
        }
    }
}

// ---------------------------------------------------------------------------
// What recordings leave
// ---------------------------------------------------------------------------

proof fn lemma_newest_push(
    t: Tables,
    v: Tables,
    n: RevisionView,
    path: Seq<char>,
    context_id: i64,
)
    requires
        t.wf(),
        n.id > t.last_revision_id,
        v.revisions == t.revisions.push(n),
        file_id_of(v.files, context_id, path) == file_id_of(t.files, context_id, path),
        file_id_of(t.files, context_id, path) != Some(n.file_id),
    ensures
        newest_of(v, path, context_id) == newest_of(t, path, context_id),
        newest_of(t, path, context_id) matches Some(r) ==> content_of(v.revisions, r)
            == content_of(t.revisions, r),
{
    let rs = t.revisions;
    assert(v.revisions.drop_last() =~= rs);
    if newest_of(t, path, context_id) is Some {
        let f = file_id_of(t.files, context_id, path)->Some_0;
        lemma_latest_at(rs, f, i64::MAX);
        let r = latest(rs, f)->Some_0;
        let i = choose|i: int| 0 <= i < rs.len() && #[trigger] rs[i] == r;
        assert(above_all(rs, n.id));
        assert(all_based(rs));
        lemma_content_push(rs, n, i);
    }
}

/// Recording a content leaves the newest revision of every other file, and its content.
pub proof fn lemma_text_leaves_newest(
    t: Tables,
    path: Seq<char>,
    content: Seq<char>,
    recorded_at_ms: i64,
    context_id: i64,
    interval: i64,
    other: Seq<char>,
)
    requires
        t.wf(),
        with_text(t, path, content, recorded_at_ms, context_id, interval) is Ok,
        other != path,
    ensures
        ({
            let v = with_text(t, path, content, recorded_at_ms, context_id, interval)->Ok_0.0;
            &&& newest_of(v, other, context_id) == newest_of(t, other, context_id)
            &&& newest_of(t, other, context_id) matches Some(r) ==> content_of(v.revisions, r)
                == content_of(t.revisions, r)
        }),
{
    let seen = with_context_seen(t, context_id, recorded_at_ms);
    lemma_seen_keeps_numbers(t, context_id, recorded_at_ms);
    lemma_with_file_finds(seen, context_id, path, recorded_at_ms);
    let (u, file_id) = with_file(seen, context_id, path, recorded_at_ms)->Ok_0;
    let (v, added) = with_text(t, path, content, recorded_at_ms, context_id, interval)->Ok_0;
    if file_id_of(t.files, context_id, other) is Some {
        lemma_files_differ(t, context_id, other, context_id, path);
        lemma_file_id_of(t.files, context_id, other);
        let id = file_id_of(t.files, context_id, other)->Some_0;
        let i = choose|i: int|
            0 <= i < t.files.len() && (#[trigger] t.files[i]).id == id && t.files[i].context_id
                == context_id && t.files[i].path == other;
        assert(t.files[i].id <= t.last_file_id);
    }
    if added {
        lemma_newest_push(t, v, v.revisions.last(), other, context_id);
    }
}

/// Recording an end leaves the newest revision of every other file, and its content.
pub proof fn lemma_delete_leaves_newest(
    t: Tables,
    path: Seq<char>,
    recorded_at_ms: i64,
    context_id: i64,
    other: Seq<char>,
)
    requires
        t.wf(),
        with_delete(t, path, recorded_at_ms, context_id) is Ok,
        other != path,
    ensures
        ({
            let v = with_delete(t, path, recorded_at_ms, context_id)->Ok_0.0;
            &&& newest_of(v, other, context_id) == newest_of(t, other, context_id)
            &&& newest_of(t, other, context_id) matches Some(r) ==> content_of(v.revisions, r)
                == content_of(t.revisions, r)
        }),
{
    let (w, added) = with_delete(t, path, recorded_at_ms, context_id)->Ok_0;
    if file_id_of(t.files, context_id, path) is Some {
        lemma_file_times(t.files, w.files, context_id, other);
        if file_id_of(t.files, context_id, other) is Some {
            lemma_files_differ(t, context_id, other, context_id, path);
        }
        if added {
            lemma_newest_push(t, w, w.revisions.last(), other, context_id);
        }
    }
}

/// A content that was recorded is what the newest revision is taken to hold, unless
/// something was recorded for the file at a later time already.
pub proof fn lemma_text_is_newest(
    t: Tables,
    path: Seq<char>,
    content: Seq<char>,
    recorded_at_ms: i64,
    context_id: i64,
    interval: i64,
)
    requires
        t.wf(),
        with_text(t, path, content, recorded_at_ms, context_id, interval) is Ok,
        recorded_by(t, path, context_id, recorded_at_ms),
    ensures
        unchanged(
            newest_of(
                with_text(t, path, content, recorded_at_ms, context_id, interval)->Ok_0.0,
                path,
                context_id,
            ),
            content,
        ),
{
    let seen = with_context_seen(t, context_id, recorded_at_ms);
    lemma_seen_keeps_numbers(t, context_id, recorded_at_ms);
    lemma_with_file_finds(seen, context_id, path, recorded_at_ms);
    let (u, file_id) = with_file(seen, context_id, path, recorded_at_ms)->Ok_0;
    let (v, added) = with_text(t, path, content, recorded_at_ms, context_id, interval)->Ok_0;
    let rs = t.revisions;
    if added {
        let n = v.revisions.last();
        assert(v.revisions == rs.push(n));
        assert(above_all(rs, n.id));
        if file_id_of(t.files, context_id, path) is None {
            lemma_no_revision_of_new_file(t, file_id, i64::MAX);
            lemma_latest_at(rs, file_id, i64::MAX);
        }
        lemma_pushed_is_latest(rs, n, i64::MAX);
    }
}

/// After a recorded end the newest revision is no content, unless something was recorded for
/// the file at a later time already.
pub proof fn lemma_delete_is_newest(
    t: Tables,
    path: Seq<char>,
    recorded_at_ms: i64,
    context_id: i64,
)
    requires
        t.wf(),
        with_delete(t, path, recorded_at_ms, context_id) is Ok,
        recorded_by(t, path, context_id, recorded_at_ms),
    ensures
        !was_there(
            newest_of(
                with_delete(t, path, recorded_at_ms, context_id)->Ok_0.0,
                path,
                context_id,
            ),
        ),
{
    let (w, added) = with_delete(t, path, recorded_at_ms, context_id)->Ok_0;
    let rs = t.revisions;
    if file_id_of(t.files, context_id, path) is Some {
        lemma_file_times(t.files, w.files, context_id, path);
        if added {
            let n = w.revisions.last();
            assert(w.revisions == rs.push(n));
            assert(above_all(rs, n.id));
            lemma_pushed_is_latest(rs, n, i64::MAX);
        }
    }
}

// ---------------------------------------------------------------------------
// Live paths
// ---------------------------------------------------------------------------

proof fn lemma_listed_path_has_file(
    fs: Seq<FileView>,
    rs: Seq<RevisionView>,
    context_id: i64,
    path: Seq<char>,
)
    requires
        live_paths_in(fs, rs, context_id, Seq::empty()).contains(path),
    ensures
        exists|i: int|
            0 <= i < fs.len() && (#[trigger] fs[i]).path == path && fs[i].context_id == context_id
                && is_live(rs, fs[i]),
    decreases fs.len(),
{
    let all = live_paths_in(fs, rs, context_id, Seq::empty());
    let rest = live_paths_in(fs.drop_last(), rs, context_id, Seq::empty());
    let k = choose|k: int| 0 <= k < all.len() && all[k] == path;
    if k < rest.len() {
        assert(rest[k] == path);
        lemma_listed_path_has_file(fs.drop_last(), rs, context_id, path);
        let i = choose|i: int|
            0 <= i < fs.drop_last().len() && (#[trigger] fs.drop_last()[i]).path == path
                && fs.drop_last()[i].context_id == context_id && is_live(rs, fs.drop_last()[i]);
        assert(fs[i] == fs.drop_last()[i]);
    } else {
        assert(fs[fs.len() - 1].path == path);
    }
}

proof fn lemma_live_paths_once(
    fs: Seq<FileView>,
    rs: Seq<RevisionView>,
    context_id: i64,
)
    requires
        paths_differ(fs),
    ensures
        live_paths_in(fs, rs, context_id, Seq::empty()).no_duplicates(),
    decreases fs.len(),
{
    if fs.len() > 0 {
        let front = fs.drop_last();
        assert forall|i: int, j: int| 0 <= i < j < front.len() implies !((
        #[trigger] front[i]).context_id == (#[trigger] front[j]).context_id && front[i].path
            == front[j].path) by {
            assert(front[i] == fs[i] && front[j] == fs[j]);
        }
        lemma_live_paths_once(front, rs, context_id);
        let rest = live_paths_in(front, rs, context_id, Seq::empty());
        let f = fs.last();
        if f.context_id == context_id && is_live(rs, f) {
            if rest.contains(f.path) {
                lemma_listed_path_has_file(front, rs, context_id, f.path);
                let i = choose|i: int|
                    0 <= i < front.len() && (#[trigger] front[i]).path == f.path
                        && front[i].context_id == context_id && is_live(rs, front[i]);
                assert(fs[i] == front[i]);
                assert(fs[fs.len() - 1] == f);
            }
            assert(under(f.path, Seq::empty()));
            let all = live_paths_in(fs, rs, context_id, Seq::empty());
            assert(all == rest.push(f.path));
            assert forall|i: int, j: int| 0 <= i < j < all.len() implies all[i] != all[j] by {
                if j == rest.len() {
                    assert(rest[i] == all[i]);
                }
            }
        }
    }
}

/// The paths that are listed as there are those of the files that are there by their newest
/// revision, each of them once.
pub proof fn law_live_paths_are_those_that_are_there(t: Tables, context_id: i64)
    requires
        t.wf(),
    ensures
        live_paths(t, context_id, Seq::empty()).no_duplicates(),
        forall|path: Seq<char>| #[trigger]
            live_paths(t, context_id, Seq::empty()).contains(path) <==> was_there(
                newest_of(t, path, context_id),
            ),
{
    let listed = live_paths_in(t.files, t.revisions, context_id, Seq::empty());
    let all = live_paths(t, context_id, Seq::empty());
    lemma_sorted_texts(listed);
    lemma_live_paths_once(t.files, t.revisions, context_id);
    listed.unique_seq_to_set();
    assert(all.to_set() =~= listed.to_set()) by {
        assert forall|y: Seq<char>| all.to_set().contains(y) == listed.to_set().contains(y) by {
            assert(all.contains(y) <==> listed.contains(y));
        }
    }
    all.lemma_no_dup_set_cardinality();
    assert forall|path: Seq<char>| #[trigger] all.contains(path) <==> was_there(
        newest_of(t, path, context_id),
    ) by {
        lemma_file_id_of(t.files, context_id, path);
        if all.contains(path) {
            lemma_listed_path_has_file(t.files, t.revisions, context_id, path);
            let i = choose|i: int|
                0 <= i < t.files.len() && (#[trigger] t.files[i]).path == path
                    && t.files[i].context_id == context_id && is_live(t.revisions, t.files[i]);
            let id = file_id_of(t.files, context_id, path)->Some_0;
            let k = choose|k: int|
                0 <= k < t.files.len() && (#[trigger] t.files[k]).id == id
                    && t.files[k].context_id == context_id && t.files[k].path == path;
            assert(i == k) by {
                if i < k {
                    assert(t.files[i].path != t.files[k].path);
                } else if k < i {
                    assert(t.files[k].path != t.files[i].path);
                }
            }
        }
        if was_there(newest_of(t, path, context_id)) {
            let id = file_id_of(t.files, context_id, path)->Some_0;
            let k = choose|k: int|
                0 <= k < t.files.len() && (#[trigger] t.files[k]).id == id
                    && t.files[k].context_id == context_id && t.files[k].path == path;
            lemma_live_path_is_listed(t.files, t.revisions, context_id, Seq::empty(), k);
        }
    }
}

/// Recording the ends of files that are there, each of them once, counts them all, and
/// leaves the newest revisions of all other files.
pub proof fn lemma_ends_are_counted(
    t: Tables,
    paths: Seq<Seq<char>>,
    recorded_at_ms: i64,
    context_id: i64,
)
    requires
        t.wf(),
        paths.no_duplicates(),
        forall|i: int| 0 <= i < paths.len() ==> was_there(
            newest_of(t, #[trigger] paths[i], context_id),
        ),
    ensures
        ({
            let (u, res) = with_deletes(t, paths, recorded_at_ms, context_id);
            &&& u.wf()
            &&& res matches Ok(n) ==> n == paths.len()
            &&& forall|other: Seq<char>|
                !paths.contains(other) ==> #[trigger] newest_of(u, other, context_id)
                    == newest_of(t, other, context_id)
            &&& (forall|p: Seq<char>| #[trigger] recorded_by(t, p, context_id, recorded_at_ms))
                ==> {
                &&& forall|p: Seq<char>| #[trigger]
                    recorded_by(u, p, context_id, recorded_at_ms)
                &&& res is Ok ==> forall|i: int|
                    0 <= i < paths.len() ==> !was_there(
                        newest_of(u, #[trigger] paths[i], context_id),
                    )
            }
        }),
    decreases paths.len(),
{
    if paths.len() > 0 {
        let rest = paths.drop_last();
        let last = paths.last();
        assert forall|i: int| 0 <= i < rest.len() implies was_there(
            newest_of(t, #[trigger] rest[i], context_id),
        ) by {
            assert(rest[i] == paths[i]);
        }
        lemma_ends_are_counted(t, rest, recorded_at_ms, context_id);
        let (u, res) = with_deletes(t, rest, recorded_at_ms, context_id);
        assert(paths[paths.len() - 1] == last);
        assert(!rest.contains(last));
        assert(newest_of(u, last, context_id) == newest_of(t, last, context_id));
        assert forall|other: Seq<char>| !paths.contains(other) implies !rest.contains(other) by {
            if rest.contains(other) {
                let k = choose|k: int| 0 <= k < rest.len() && rest[k] == other;
                assert(paths[k] == other);
            }
        }
        if res is Ok && with_delete(u, last, recorded_at_ms, context_id) is Ok {
            let (v, added) = with_delete(u, last, recorded_at_ms, context_id)->Ok_0;
            law_delete_keeps_agreement(u, last, recorded_at_ms, context_id);
            assert(added);
            assert forall|other: Seq<char>| !paths.contains(other) implies #[trigger] newest_of(
                v,
                other,
                context_id,
            ) == newest_of(t, other, context_id) by {
                lemma_delete_leaves_newest(u, last, recorded_at_ms, context_id, other);
                assert(newest_of(u, other, context_id) == newest_of(t, other, context_id));
            }
            if forall|p: Seq<char>| #[trigger] recorded_by(t, p, context_id, recorded_at_ms) {
                assert forall|p: Seq<char>| #[trigger]
                    recorded_by(v, p, context_id, recorded_at_ms) by {
                    assert(recorded_by(u, p, context_id, recorded_at_ms));
                    lemma_delete_stays_recorded(u, last, recorded_at_ms, context_id, p);
                }
                assert(recorded_by(u, last, context_id, recorded_at_ms));
                lemma_delete_is_newest(u, last, recorded_at_ms, context_id);
                assert forall|i: int| 0 <= i < paths.len() implies !was_there(
                    newest_of(v, #[trigger] paths[i], context_id),
                ) by {
                    if i < rest.len() {
                        assert(rest[i] == paths[i]);
                        assert(paths[i] != last);
                        lemma_delete_leaves_newest(
                            u,
                            last,
                            recorded_at_ms,
                            context_id,
                            paths[i],
                        );
                    }
                }
            }
        }
    }
}

/// An end that is recorded is recorded by its time.
pub proof fn lemma_delete_stays_recorded(
    t: Tables,
    path: Seq<char>,
    recorded_at_ms: i64,
    context_id: i64,
    other: Seq<char>,
)
    requires
        t.wf(),
        with_delete(t, path, recorded_at_ms, context_id) is Ok,
        recorded_by(t, other, context_id, recorded_at_ms),
    ensures
        recorded_by(
            with_delete(t, path, recorded_at_ms, context_id)->Ok_0.0,
            other,
            context_id,
            recorded_at_ms,
        ),
{
    let (w, added) = with_delete(t, path, recorded_at_ms, context_id)->Ok_0;
    if file_id_of(t.files, context_id, path) is Some {
        lemma_file_times(t.files, w.files, context_id, other);
    }
    if file_id_of(w.files, context_id, other) is Some {
        let id = file_id_of(w.files, context_id, other)->Some_0;
        assert forall|i: int|
            0 <= i < w.revisions.len() && (#[trigger] w.revisions[i]).file_id
                == id implies w.revisions[i].recorded_at_ms <= recorded_at_ms by {
            if i < t.revisions.len() {
                assert(w.revisions[i] == t.revisions[i]);
            }
        }
    }
}

/// A content that is recorded is recorded by its time.
pub proof fn lemma_text_stays_recorded(
    t: Tables,
    path: Seq<char>,
    content: Seq<char>,
    recorded_at_ms: i64,
    context_id: i64,
    interval: i64,
    other: Seq<char>,
)
    requires
        t.wf(),
        with_text(t, path, content, recorded_at_ms, context_id, interval) is Ok,
        recorded_by(t, other, context_id, recorded_at_ms),
    ensures
        recorded_by(
            with_text(t, path, content, recorded_at_ms, context_id, interval)->Ok_0.0,
            other,
            context_id,
            recorded_at_ms,
        ),
{
    let seen = with_context_seen(t, context_id, recorded_at_ms);
    lemma_seen_keeps_numbers(t, context_id, recorded_at_ms);
    lemma_with_file_finds(seen, context_id, path, recorded_at_ms);
    let (u, file_id) = with_file(seen, context_id, path, recorded_at_ms)->Ok_0;
    let (v, added) = with_text(t, path, content, recorded_at_ms, context_id, interval)->Ok_0;
    if file_id_of(t.files, context_id, path) is None {
        lemma_no_revision_of_new_file(t, file_id, i64::MAX);
        lemma_latest_at(t.revisions, file_id, i64::MAX);
    }
    if file_id_of(v.files, context_id, other) is Some {
        let id = file_id_of(v.files, context_id, other)->Some_0;
        assert forall|i: int|
            0 <= i < v.revisions.len() && (#[trigger] v.revisions[i]).file_id
                == id implies v.revisions[i].recorded_at_ms <= recorded_at_ms by {
            if i < t.revisions.len() {
                assert(v.revisions[i] == t.revisions[i]);
            }
        }
    }
}

} // verus!
