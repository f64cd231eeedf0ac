//! Contexts do not mix: what is recorded in one leaves what is listed of another.
use vstd::prelude::*;

use crate::restore::{paths_plan, project_plan};
use crate::store::laws::{law_delete_keeps_other_states, law_text_keeps_other_states};
use crate::store::listing::{
    all_paths,
    file_of,
    history,
    in_context,
    law_oldest_first_sorts,
    lemma_file_of,
    newest_first,
    oldest_first,
    paths_in,
    recent,
    recent_entry,
    revisions_in,
    revisions_of,
};
use crate::store::lookup::{file_id_of, lemma_file_id_of, state_at};
use crate::store::record::{with_context_seen, with_delete, with_file, with_text};
use crate::store::rows::{FileView, RevisionView};
use crate::store::tables::{has_file, Tables};

verus! {

/// Whether files stayed what they were, but for the times at which they were seen, and
/// only such of one context came to them, under higher numbers.
pub open spec fn files_grow(before: Seq<FileView>, after: Seq<FileView>, context_id: i64) -> bool {
    &&& before.len() <= after.len()
    &&& forall|i: int|
        #![trigger after[i]]
        0 <= i < before.len() ==> after[i].id == before[i].id && after[i].context_id
            == before[i].context_id && after[i].path == before[i].path
    &&& forall|i: int|
        before.len() <= i < after.len() ==> (#[trigger] after[i]).context_id == context_id
    &&& forall|i: int, j: int|
        0 <= i < before.len() <= j < after.len() ==> (#[trigger] before[i]).id < (
        #[trigger] after[j]).id
}

/// Whether nothing was recorded but in one context, and no more than one revision.
pub open spec fn records_only_in(t: Tables, u: Tables, context_id: i64) -> bool {
    &&& files_grow(t.files, u.files, context_id)
    &&& u.revisions == t.revisions || {
        &&& u.revisions.len() == t.revisions.len() + 1
        &&& u.revisions.drop_last() == t.revisions
        &&& in_context(u.files, u.revisions.last(), context_id)
    }
}

proof fn lemma_files_grow_less(before: Seq<FileView>, after: Seq<FileView>, context_id: i64)
    requires
        files_grow(before, after, context_id),
        after.len() > 0,
    ensures
        before.len() < after.len() ==> files_grow(before, after.drop_last(), context_id),
        before.len() == after.len() ==> files_grow(
            before.drop_last(),
            after.drop_last(),
            context_id,
        ),
{
    let shorter = after.drop_last();
    assert forall|i: int|
        #![trigger shorter[i]]
        0 <= i < before.len() && i < shorter.len() implies shorter[i].id == before[i].id
        && shorter[i].context_id == before[i].context_id && shorter[i].path == before[i].path by {
        assert(shorter[i] == after[i]);
    }
    assert forall|i: int| before.len() <= i < shorter.len() implies (
    #[trigger] shorter[i]).context_id == context_id by {
        assert(shorter[i] == after[i]);
    }
    assert forall|i: int, j: int| 0 <= i < before.len() <= j < shorter.len() implies (
    #[trigger] before[i]).id < (#[trigger] shorter[j]).id by {
        assert(shorter[j] == after[j]);
    }
}

proof fn lemma_paths_stay(
    before: Seq<FileView>,
    after: Seq<FileView>,
    context_id: i64,
    other: i64,
)
    requires
        files_grow(before, after, context_id),
        other != context_id,
    ensures
        paths_in(after, other) == paths_in(before, other),
        forall|path: Seq<char>| #[trigger]
            file_id_of(after, other, path) == file_id_of(before, other, path),
    decreases after.len(),
{
    if after.len() > 0 {
        lemma_files_grow_less(before, after, context_id);
        let last = after[after.len() - 1];
        assert(last == after.last());
        if before.len() < after.len() {
            lemma_paths_stay(before, after.drop_last(), context_id, other);
            assert forall|path: Seq<char>| #[trigger]
                file_id_of(after, other, path) == file_id_of(before, other, path) by {
                assert(file_id_of(after.drop_last(), other, path) == file_id_of(
                    before,
                    other,
                    path,
                ));
            }
        } else {
            lemma_paths_stay(before.drop_last(), after.drop_last(), context_id, other);
            assert(before.last() == before[after.len() - 1]);
            assert forall|path: Seq<char>| #[trigger]
                file_id_of(after, other, path) == file_id_of(before, other, path) by {
                assert(file_id_of(after.drop_last(), other, path) == file_id_of(
                    before.drop_last(),
                    other,
                    path,
                ));
            }
        }
    }
}

proof fn lemma_file_stays(before: Seq<FileView>, after: Seq<FileView>, context_id: i64, id: i64)
    requires
        files_grow(before, after, context_id),
        has_file(before, id),
    ensures
        file_of(before, id) is Some,
        file_of(after, id) is Some,
        file_of(after, id)->Some_0.context_id == file_of(before, id)->Some_0.context_id,
        file_of(after, id)->Some_0.path == file_of(before, id)->Some_0.path,
    decreases after.len(),
{
    let k = choose|k: int| 0 <= k < before.len() && (#[trigger] before[k]).id == id;
    lemma_files_grow_less(before, after, context_id);
    let last = after[after.len() - 1];
    assert(last == after.last());
    if before.len() < after.len() {
        assert(before[k].id < last.id);
        lemma_file_stays(before, after.drop_last(), context_id, id);
    } else {
        assert(before.last() == before[after.len() - 1]);
        if before.last().id != id {
            assert(before.drop_last()[k].id == id);
            lemma_file_stays(before.drop_last(), after.drop_last(), context_id, id);
        }
    }
}

proof fn lemma_revisions_stay(
    rs: Seq<RevisionView>,
    before: Seq<FileView>,
    after: Seq<FileView>,
    context_id: i64,
    other: i64,
)
    requires
        files_grow(before, after, context_id),
        forall|i: int| 0 <= i < rs.len() ==> has_file(before, (#[trigger] rs[i]).file_id),
    ensures
        revisions_in(rs, after, other) == revisions_in(rs, before, other),
        forall|i: int|
            0 <= i < revisions_in(rs, before, other).len() ==> has_file(
                before,
                (#[trigger] revisions_in(rs, before, other)[i]).file_id,
            ),
    decreases rs.len(),
{
    if rs.len() > 0 {
        let rest = rs.drop_last();
        assert forall|i: int| 0 <= i < rest.len() implies has_file(
            before,
            (#[trigger] rest[i]).file_id,
        ) by {
            assert(rest[i] == rs[i]);
        }
        lemma_revisions_stay(rest, before, after, context_id, other);
        let last = rs[rs.len() - 1];
        assert(last == rs.last());
        assert(has_file(before, last.file_id));
        lemma_file_stays(before, after, context_id, last.file_id);
        let shorter = revisions_in(rest, before, other);
        let all = revisions_in(rs, before, other);
        assert forall|i: int| 0 <= i < all.len() implies has_file(
            before,
            (#[trigger] all[i]).file_id,
        ) by {
            if i < shorter.len() {
                assert(all[i] == shorter[i]);
            }
        }
    }
}

proof fn lemma_newest_first_from(rs: Seq<RevisionView>, k: int)
    requires
        0 <= k < newest_first(rs).len(),
    ensures
        rs.contains(newest_first(rs)[k]),
{
    broadcast use vstd::seq_lib::group_to_multiset_ensures;

    law_oldest_first_sorts(rs);
    let sorted = oldest_first(rs);
    let r = newest_first(rs)[k];
    assert(sorted[sorted.len() - 1 - k] == r);
    assert(sorted.contains(r));
    assert(sorted.to_multiset().count(r) > 0);
    assert(rs.to_multiset().count(r) > 0);
}

/// What is recorded in one context leaves the paths, the histories and the recent changes
/// of every other.
pub proof fn law_other_contexts_list_the_same(
    t: Tables,
    u: Tables,
    context_id: i64,
    other: i64,
    limit: nat,
)
    requires
        t.wf(),
        records_only_in(t, u, context_id),
        other != context_id,
    ensures
        all_paths(u, other) == all_paths(t, other),
        recent(u, limit, other) == recent(t, limit, other),
        forall|path: Seq<char>| #[trigger] history(u, path, other) == history(t, path, other),
{
    lemma_paths_stay(t.files, u.files, context_id, other);
    lemma_revisions_stay(t.revisions, t.files, u.files, context_id, other);
    let old_list = revisions_in(t.revisions, t.files, other);
    assert(revisions_in(u.revisions, u.files, other) == old_list);
    let ordered = newest_first(old_list);
    assert forall|k: int| 0 <= k < ordered.len() implies recent_entry(
        u.files,
        #[trigger] ordered[k],
    ) == recent_entry(t.files, ordered[k]) by {
        lemma_newest_first_from(old_list, k);
        let i = choose|i: int| 0 <= i < old_list.len() && old_list[i] == ordered[k];
        assert(has_file(t.files, old_list[i].file_id));
        lemma_file_stays(t.files, u.files, context_id, ordered[k].file_id);
    }
    assert(ordered.map_values(|r: RevisionView| recent_entry(u.files, r)) =~= ordered.map_values(
        |r: RevisionView| recent_entry(t.files, r),
    ));
    assert forall|path: Seq<char>| #[trigger] history(u, path, other) == history(
        t,
        path,
        other,
    ) by {
        assert(file_id_of(u.files, other, path) == file_id_of(t.files, other, path));
        if file_id_of(t.files, other, path) is Some {
            let id = file_id_of(t.files, other, path)->Some_0;
            lemma_file_id_of(t.files, other, path);
            let at = choose|i: int|
                0 <= i < t.files.len() && (#[trigger] t.files[i]).id == id
                    && t.files[i].context_id == other && t.files[i].path == path;
            lemma_file_of(t.files, at, t.last_file_id);
            assert(has_file(t.files, id));
            lemma_file_stays(t.files, u.files, context_id, id);
            assert(revisions_of(u.revisions, id) == revisions_of(t.revisions, id));
        }
    }
}

/// Recording a content touches its own context only.
pub proof fn law_text_stays_in_its_context(
    t: Tables,
    path: Seq<char>,
    content: Seq<char>,
    recorded_at_ms: i64,
    context_id: i64,
    interval: i64,
)
    requires
        t.wf(),
        with_text(t, path, content, recorded_at_ms, context_id, interval) is Ok,
    ensures
        records_only_in(
            t,
            with_text(t, path, content, recorded_at_ms, context_id, interval)->Ok_0.0,
            context_id,
        ),
{
    let seen = with_context_seen(t, context_id, recorded_at_ms);
    let (u, file_id) = with_file(seen, context_id, path, recorded_at_ms)->Ok_0;
    let (v, added) = with_text(t, path, content, recorded_at_ms, context_id, interval)->Ok_0;
    assert(v.files == u.files);
    assert(files_grow(t.files, u.files, context_id));
    if added {
        assert(v.revisions.drop_last() =~= t.revisions);
        lemma_found_file(t, u, path, context_id, file_id);
    }
}

proof fn lemma_found_file(t: Tables, u: Tables, path: Seq<char>, context_id: i64, file_id: i64)
    requires
        t.wf(),
        files_grow(t.files, u.files, context_id),
        file_id_of(t.files, context_id, path) == Some(file_id) || (u.files.len() > t.files.len()
            && u.files.last().id == file_id),
    ensures
        file_of(u.files, file_id) is Some,
        file_of(u.files, file_id)->Some_0.context_id == context_id,
{
    if file_id_of(t.files, context_id, path) == Some(file_id) {
        lemma_file_id_of(t.files, context_id, path);
        let at = choose|i: int|
            0 <= i < t.files.len() && (#[trigger] t.files[i]).id == file_id
                && t.files[i].context_id == context_id && t.files[i].path == path;
        lemma_file_of(t.files, at, t.last_file_id);
        assert(has_file(t.files, file_id));
        lemma_file_stays(t.files, u.files, context_id, file_id);
    } else {
        assert(u.files[u.files.len() - 1].context_id == context_id);
    }
}

/// Recording an end touches its own context only.
pub proof fn law_delete_stays_in_its_context(
    t: Tables,
    path: Seq<char>,
    recorded_at_ms: i64,
    context_id: i64,
)
    requires
        t.wf(),
        with_delete(t, path, recorded_at_ms, context_id) is Ok,
    ensures
        records_only_in(
            t,
            with_delete(t, path, recorded_at_ms, context_id)->Ok_0.0,
            context_id,
        ),
{
    let seen = with_context_seen(t, context_id, recorded_at_ms);
    let (v, added) = with_delete(t, path, recorded_at_ms, context_id)->Ok_0;
    assert(files_grow(t.files, v.files, context_id));
    if added {
        let file_id = file_id_of(t.files, context_id, path)->Some_0;
        assert(v.revisions.drop_last() =~= t.revisions);
        lemma_found_file(t, v, path, context_id, file_id);
    }
}

proof fn lemma_same_states_same_plan(
    t: Tables,
    u: Tables,
    root: Seq<char>,
    paths: Seq<Seq<char>>,
    at_ms: i64,
    context_id: i64,
)
    requires
        forall|path: Seq<char>| #[trigger]
            state_at(u, path, at_ms, context_id) == state_at(t, path, at_ms, context_id),
    ensures
        paths_plan(u, root, paths, at_ms, context_id) == paths_plan(
            t,
            root,
            paths,
            at_ms,
            context_id,
        ),
    decreases paths.len(),
{
    if paths.len() > 0 {
        lemma_same_states_same_plan(t, u, root, paths.drop_last(), at_ms, context_id);
    }
}

/// A content that is recorded in one context enters no restore of another.
pub proof fn law_text_enters_no_other_plan(
    t: Tables,
    path: Seq<char>,
    content: Seq<char>,
    recorded_at_ms: i64,
    context_id: i64,
    interval: i64,
    root: Seq<char>,
    at_ms: i64,
    other: i64,
)
    requires
        t.wf(),
        with_text(t, path, content, recorded_at_ms, context_id, interval) is Ok,
        other != context_id,
    ensures
        project_plan(
            with_text(t, path, content, recorded_at_ms, context_id, interval)->Ok_0.0,
            root,
            at_ms,
            Some(other),
        ) == project_plan(t, root, at_ms, Some(other)),
{
    let u = with_text(t, path, content, recorded_at_ms, context_id, interval)->Ok_0.0;
    law_text_stays_in_its_context(t, path, content, recorded_at_ms, context_id, interval);
    law_other_contexts_list_the_same(t, u, context_id, other, 0);
    assert forall|p: Seq<char>| #[trigger] state_at(u, p, at_ms, other) == state_at(
        t,
        p,
        at_ms,
        other,
    ) by {
        law_text_keeps_other_states(
            t,
            path,
            content,
            recorded_at_ms,
            context_id,
            interval,
            p,
            other,
            at_ms,
        );
    }
    lemma_same_states_same_plan(t, u, root, all_paths(t, other), at_ms, other);
}

/// An end that is recorded in one context enters no restore of another.
pub proof fn law_delete_enters_no_other_plan(
    t: Tables,
    path: Seq<char>,
    recorded_at_ms: i64,
    context_id: i64,
    root: Seq<char>,
    at_ms: i64,
    other: i64,
)
    requires
        t.wf(),
        with_delete(t, path, recorded_at_ms, context_id) is Ok,
        other != context_id,
    ensures
        project_plan(
            with_delete(t, path, recorded_at_ms, context_id)->Ok_0.0,
            root,
            at_ms,
            Some(other),
        ) == project_plan(t, root, at_ms, Some(other)),
{
    let u = with_delete(t, path, recorded_at_ms, context_id)->Ok_0.0;
    law_delete_stays_in_its_context(t, path, recorded_at_ms, context_id);
    law_other_contexts_list_the_same(t, u, context_id, other, 0);
    assert forall|p: Seq<char>| #[trigger] state_at(u, p, at_ms, other) == state_at(
        t,
        p,
        at_ms,
        other,
    ) by {
        law_delete_keeps_other_states(t, path, recorded_at_ms, context_id, p, other, at_ms);
    }
    lemma_same_states_same_plan(t, u, root, all_paths(t, other), at_ms, other);
}

} // verus!
