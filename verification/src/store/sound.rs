//! Timelines whose revisions all give back their content, and what adding a revision does
//! to the states that can be read.
use vstd::prelude::*;
use vstd::utf8::*;

use crate::delta::{patch_outcome, patch_text, DeltaError};
use crate::store::lookup::{
    chain_of,
    content_of,
    file_id_of,
    latest,
    latest_at,
    lemma_file_id_of,
    lemma_latest_at,
    lemma_revision_at,
    lemma_revision_of,
    lemma_unpassed,
    materialized,
    numbers_of,
    revision_of,
    state_at,
    step,
    whole_chain,
};
use crate::store::record::{
    kept_as_patch,
    patch_start,
    sha256_hex,
    text_revision,
    with_file,
};
use crate::store::rows::{EventType, FileView, RevisionView, StorageKind};
use crate::store::tables::{base_holds, has_file, revision_ids_ascend, StoreError, Tables};

verus! {

/// Whether a revision gives back a content, and carries the digest of it.
pub open spec fn reads_back(rs: Seq<RevisionView>, r: RevisionView) -> bool {
    &&& content_of(rs, r) is Ok
    &&& r.content_hash == Some(sha256_hex(content_of(rs, r)->Ok_0))
}

/// Whether every revision but the ends gives back a content, and carries the digest of
/// it.
pub open spec fn sound(t: Tables) -> bool {
    forall|i: int|
        0 <= i < t.revisions.len() && (#[trigger] t.revisions[i]).event_type != EventType::Delete
            ==> reads_back(t.revisions, t.revisions[i])
}

/// Whether all revisions of the file under a path were recorded by a time.
pub open spec fn recorded_by(t: Tables, path: Seq<char>, context_id: i64, at_ms: i64) -> bool {
    match file_id_of(t.files, context_id, path) {
        Some(file_id) => forall|i: int|
            0 <= i < t.revisions.len() && (#[trigger] t.revisions[i]).file_id == file_id
                ==> t.revisions[i].recorded_at_ms <= at_ms,
        None => true,
    }
}

/// Whether the newest revision of the file under a path, if it is no end, gives back a
/// content and carries the digest of it.
pub open spec fn newest_reads_back(t: Tables, path: Seq<char>, context_id: i64) -> bool {
    match file_id_of(t.files, context_id, path) {
        Some(file_id) => match latest(t.revisions, file_id) {
            Some(r) => r.event_type == EventType::Delete || reads_back(t.revisions, r),
            None => true,
        },
        None => true,
    }
}

/// In a sound timeline every newest revision gives back what it stands for.
pub proof fn law_sound_newest_reads_back(t: Tables, path: Seq<char>, context_id: i64)
    requires
        sound(t),
    ensures
        newest_reads_back(t, path, context_id),
{
    if file_id_of(t.files, context_id, path) is Some {
        let file_id = file_id_of(t.files, context_id, path)->Some_0;
        lemma_latest_at(t.revisions, file_id, i64::MAX);
        if latest(t.revisions, file_id) is Some {
            let r = latest(t.revisions, file_id)->Some_0;
            let i = choose|i: int| 0 <= i < t.revisions.len() && #[trigger] t.revisions[i] == r;
            assert(t.revisions[i] == r);
        }
    }
}

/// Whether the digest tells a content from what the file under a path holds now.
pub open spec fn digest_tells(
    t: Tables,
    path: Seq<char>,
    context_id: i64,
    content: Seq<char>,
) -> bool {
    match state_at(t, path, i64::MAX, context_id) {
        Ok(Some(held)) => sha256_hex(held) == sha256_hex(content) ==> held == content,
        _ => true,
    }
}

/// Whether nothing was recorded in a context after a time.
pub open spec fn nothing_after(t: Tables, context_id: i64, at_ms: i64) -> bool {
    forall|path: Seq<char>| #[trigger] recorded_by(t, path, context_id, at_ms)
}

/// Whether the files under some paths are absent from a time on, while the others are as
/// they were.
pub open spec fn ends_at(
    before: Tables,
    after: Tables,
    paths: Seq<Seq<char>>,
    recorded_at_ms: i64,
    context_id: i64,
) -> bool {
    forall|path: Seq<char>, at_ms: i64|
        at_ms >= recorded_at_ms ==> #[trigger] state_at(after, path, at_ms, context_id) == (
        if paths.contains(path) {
            Ok::<Option<Seq<char>>, StoreError>(None)
        } else {
            state_at(before, path, at_ms, context_id)
        })
}

/// Whether a number is above those of all revisions.
pub open spec fn above_all(rs: Seq<RevisionView>, id: i64) -> bool {
    forall|i: int| 0 <= i < rs.len() ==> (#[trigger] rs[i]).id < id
}

// ---------------------------------------------------------------------------
// Adding a revision
// ---------------------------------------------------------------------------

/// A chain that is there does not depend on what was asked for.
pub proof fn lemma_chain_asked(
    rs: Seq<RevisionView>,
    r: RevisionView,
    a: i64,
    b: i64,
    passed: Set<i64>,
)
    requires
        chain_of(rs, r, a, passed) is Ok,
    ensures
        chain_of(rs, r, b, passed) == chain_of(rs, r, a, passed),
    decreases numbers_of(rs).difference(passed).len(),
{
    if r.storage_kind != StorageKind::Full {
        let id = r.base_revision_id->Some_0;
        let base = revision_of(rs, id)->Some_0;
        lemma_unpassed(rs, id, passed);
        lemma_chain_asked(rs, base, a, b, passed.insert(id));
    }
}

/// A number that no revision has may count as passed.
pub proof fn lemma_chain_passed(
    rs: Seq<RevisionView>,
    r: RevisionView,
    asked: i64,
    passed: Set<i64>,
    extra: i64,
)
    requires
        revision_of(rs, extra) is None,
    ensures
        chain_of(rs, r, asked, passed.insert(extra)) == chain_of(rs, r, asked, passed),
    decreases numbers_of(rs).difference(passed).len(),
{
    if r.storage_kind != StorageKind::Full && r.base_revision_id is Some {
        let b = r.base_revision_id->Some_0;
        if revision_of(rs, b) is Some && !passed.contains(b) {
            let base = revision_of(rs, b)->Some_0;
            lemma_unpassed(rs, b, passed);
            lemma_chain_passed(rs, base, asked, passed.insert(b), extra);
            assert(passed.insert(extra).insert(b) =~= passed.insert(b).insert(extra));
        }
    }
}

/// A new revision changes no chain of those that do not lead to it.
pub proof fn lemma_chain_push(
    rs: Seq<RevisionView>,
    n: RevisionView,
    r: RevisionView,
    asked: i64,
    passed: Set<i64>,
)
    requires
        above_all(rs, n.id),
        all_based(rs),
        base_holds(rs, r),
    ensures
        chain_of(rs.push(n), r, asked, passed) == chain_of(rs, r, asked, passed),
    decreases numbers_of(rs).difference(passed).len(),
{
    assert(rs.push(n).drop_last() =~= rs);
    if r.storage_kind != StorageKind::Full && r.base_revision_id is Some {
        let b = r.base_revision_id->Some_0;
        lemma_revision_of(rs, b);
        let j = choose|j: int| 0 <= j < rs.len() && (#[trigger] rs[j]).id == b;
        assert(b < n.id);
        let base = revision_of(rs, b)->Some_0;
        let i = choose|i: int| 0 <= i < rs.len() && #[trigger] rs[i] == base;
        if !passed.contains(b) {
            lemma_unpassed(rs, b, passed);
            assert(base_holds(rs, rs[i]));
            lemma_chain_push(rs, n, base, asked, passed.insert(b));
        }
    }
}

/// Whether every base that a revision names is there.
pub open spec fn all_based(rs: Seq<RevisionView>) -> bool {
    forall|i: int| 0 <= i < rs.len() ==> base_holds(rs, #[trigger] rs[i])
}

/// A new revision changes no content of the old ones.
pub proof fn lemma_content_push(rs: Seq<RevisionView>, n: RevisionView, at: int)
    requires
        above_all(rs, n.id),
        all_based(rs),
        0 <= at < rs.len(),
    ensures
        content_of(rs.push(n), rs[at]) == content_of(rs, rs[at]),
{
    lemma_chain_push(rs, n, rs[at], rs[at].id, set![rs[at].id]);
}

/// The revision that records new content gives it back.
pub proof fn lemma_text_row_reads_back(
    rs: Seq<RevisionView>,
    n: RevisionView,
    previous: Seq<char>,
    content: Seq<char>,
    interval: i64,
    last: i64,
)
    requires
        revision_ids_ascend(rs, last),
        all_based(rs),
        last < n.id,
        patch_start(rs, latest(rs, n.file_id), interval) == Ok::<Seq<char>, StoreError>(previous),
        n == text_revision(
            n.id,
            n.file_id,
            latest(rs, n.file_id),
            previous,
            content,
            n.recorded_at_ms,
            interval,
        ),
        kept_as_patch(latest(rs, n.file_id), interval) ==> patch_outcome(
            previous,
            encode_utf8(patch_text(previous, content)),
        ) == Ok::<Seq<char>, DeltaError>(content),
    ensures
        reads_back(rs.push(n), n),
        content_of(rs.push(n), n) == Ok::<Seq<char>, StoreError>(content),
{
    let all = rs.push(n);
    assert(all.drop_last() =~= rs);
    encode_utf8_valid_utf8(content);
    encode_utf8_decode_utf8(content);
    if kept_as_patch(latest(rs, n.file_id), interval) {
        let newest = latest(rs, n.file_id)->Some_0;
        lemma_latest_at(rs, n.file_id, i64::MAX);
        let i = choose|i: int| 0 <= i < rs.len() && #[trigger] rs[i] == newest;
        assert(rs[i].id <= last);
        lemma_revision_at(rs, i);
        assert(revision_of(all, newest.id) == Some(newest));
        assert(above_all(rs, n.id));
        lemma_revision_of(rs, n.id);
        lemma_chain_asked(rs, newest, newest.id, n.id, set![newest.id]);
        lemma_chain_passed(rs, newest, n.id, set![newest.id], n.id);
        let passed = set![n.id].insert(newest.id);
        assert(passed =~= set![newest.id].insert(n.id));
        assert(base_holds(rs, rs[i]));
        lemma_chain_push(rs, n, newest, n.id, passed);
        let rest = whole_chain(rs, newest)->Ok_0;
        assert(whole_chain(all, n) == Ok::<Seq<RevisionView>, StoreError>(seq![n] + rest));
        assert((seq![n] + rest).drop_first() =~= rest);
        assert((seq![n] + rest)[0] == n);
    } else {
        assert(whole_chain(all, n) == Ok::<Seq<RevisionView>, StoreError>(seq![n]));
        let one = seq![n];
        assert(one.drop_first() =~= Seq::<RevisionView>::empty());
        assert(materialized(one.drop_first()) == Ok::<Seq<char>, StoreError>(Seq::<char>::empty()));
        assert(materialized(one) == step(n, Seq::empty()));
    }
}

/// A sound timeline stays sound with one more revision that is an end or reads back.
pub proof fn lemma_sound_push(t: Tables, n: RevisionView)
    requires
        t.wf(),
        sound(t),
        t.last_revision_id < n.id,
        n.event_type == EventType::Delete || reads_back(t.revisions.push(n), n),
    ensures
        sound(Tables { revisions: t.revisions.push(n), ..t }),
{
    let rs = t.revisions;
    let all = rs.push(n);
    assert(above_all(rs, n.id));
    assert forall|i: int|
        0 <= i < all.len() && (#[trigger] all[i]).event_type
            != EventType::Delete implies reads_back(all, all[i]) by {
        if i < rs.len() {
            assert(all[i] == rs[i]);
            lemma_content_push(rs, n, i);
        }
    }
}

// ---------------------------------------------------------------------------
// Files that are seen
// ---------------------------------------------------------------------------

/// Setting times finds the same files.
pub proof fn lemma_file_times(before: Seq<FileView>, after: Seq<FileView>, c: i64, path: Seq<char>)
    requires
        before.len() == after.len(),
        forall|i: int|
            0 <= i < before.len() ==> (#[trigger] after[i]).id == before[i].id
                && after[i].context_id == before[i].context_id && after[i].path == before[i].path,
    ensures
        file_id_of(after, c, path) == file_id_of(before, c, path),
    decreases before.len(),
{
    if before.len() > 0 {
        assert forall|i: int| 0 <= i < before.drop_last().len() implies (
        #[trigger] after.drop_last()[i]).id == before.drop_last()[i].id
            && after.drop_last()[i].context_id == before.drop_last()[i].context_id
            && after.drop_last()[i].path == before.drop_last()[i].path by {
            assert(after[i].id == before[i].id);
        }
        lemma_file_times(before.drop_last(), after.drop_last(), c, path);
        assert(after[after.len() - 1].id == before[before.len() - 1].id);
    }
}

/// What noting a file does to what is found: the file itself is found under its number,
/// every other one as before.
pub proof fn lemma_with_file_finds(t: Tables, context_id: i64, path: Seq<char>, seen_ms: i64)
    requires
        with_file(t, context_id, path, seen_ms) is Ok,
    ensures
        ({
            let (u, id) = with_file(t, context_id, path, seen_ms)->Ok_0;
            &&& file_id_of(u.files, context_id, path) == Some(id)
            &&& forall|c: i64, p: Seq<char>|
                (c != context_id || p != path) ==> #[trigger] file_id_of(u.files, c, p)
                    == file_id_of(t.files, c, p)
            &&& file_id_of(t.files, context_id, path) is None ==> id == t.last_file_id + 1
            &&& file_id_of(t.files, context_id, path) is Some ==> file_id_of(
                t.files,
                context_id,
                path,
            ) == Some(id)
            &&& u.revisions == t.revisions
            &&& u.last_revision_id == t.last_revision_id
        }),
{
    let (u, id) = with_file(t, context_id, path, seen_ms)->Ok_0;
    match file_id_of(t.files, context_id, path) {
        Some(_) => {
            lemma_file_times(t.files, u.files, context_id, path);
            assert forall|c: i64, p: Seq<char>|
                (c != context_id || p != path) implies #[trigger] file_id_of(u.files, c, p)
                == file_id_of(t.files, c, p) by {
                lemma_file_times(t.files, u.files, c, p);
            }
        },
        None => {
            assert(u.files.drop_last() =~= t.files);
        },
    }
}

/// No revision belongs to a file that has no row.
pub proof fn lemma_no_revision_of_new_file(t: Tables, file_id: i64, at_ms: i64)
    requires
        t.wf(),
        file_id > t.last_file_id,
    ensures
        latest_at(t.revisions, file_id, at_ms) is None,
{
    lemma_latest_at(t.revisions, file_id, at_ms);
    if latest_at(t.revisions, file_id, at_ms) is Some {
        let r = latest_at(t.revisions, file_id, at_ms)->Some_0;
        let i = choose|i: int| 0 <= i < t.revisions.len() && #[trigger] t.revisions[i] == r;
        assert(has_file(t.files, t.revisions[i].file_id));
        let j = choose|j: int| 0 <= j < t.files.len() && (#[trigger] t.files[j]).id == file_id;
        assert(t.files[j].id <= t.last_file_id);
    }
}

/// Two paths or contexts never lead to the same file.
pub proof fn lemma_files_differ(t: Tables, c1: i64, p1: Seq<char>, c2: i64, p2: Seq<char>)
    requires
        t.wf(),
        c1 != c2 || p1 != p2,
        file_id_of(t.files, c1, p1) is Some,
    ensures
        file_id_of(t.files, c1, p1) != file_id_of(t.files, c2, p2),
{
    lemma_file_id_of(t.files, c1, p1);
    lemma_file_id_of(t.files, c2, p2);
    if file_id_of(t.files, c1, p1) == file_id_of(t.files, c2, p2) {
        let id = file_id_of(t.files, c1, p1)->Some_0;
        let i = choose|i: int|
            0 <= i < t.files.len() && (#[trigger] t.files[i]).id == id && t.files[i].context_id
                == c1 && t.files[i].path == p1;
        let j = choose|j: int|
            0 <= j < t.files.len() && (#[trigger] t.files[j]).id == id && t.files[j].context_id
                == c2 && t.files[j].path == p2;
        if i < j {
            assert(t.files[i].id < t.files[j].id);
        } else if j < i {
            assert(t.files[j].id < t.files[i].id);
        }
    }
}

/// A revision that was recorded no earlier than all others of its file is the newest.
pub proof fn lemma_pushed_is_latest(rs: Seq<RevisionView>, n: RevisionView, at_ms: i64)
    requires
        above_all(rs, n.id),
        n.recorded_at_ms <= at_ms,
        forall|i: int|
            0 <= i < rs.len() && (#[trigger] rs[i]).file_id == n.file_id ==> rs[i].recorded_at_ms
                <= n.recorded_at_ms,
    ensures
        latest_at(rs.push(n), n.file_id, at_ms) == Some(n),
{
    assert(rs.push(n).drop_last() =~= rs);
    lemma_latest_at(rs, n.file_id, at_ms);
    if latest_at(rs, n.file_id, at_ms) is Some {
        let r = latest_at(rs, n.file_id, at_ms)->Some_0;
        let i = choose|i: int| 0 <= i < rs.len() && #[trigger] rs[i] == r;
        assert(rs[i].id < n.id);
        assert(rs[i].recorded_at_ms <= n.recorded_at_ms);
    }
}

} // verus!
