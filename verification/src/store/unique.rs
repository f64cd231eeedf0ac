//! Rows that are told apart by more than their numbers: contexts by their fingerprints,
//! files by context and path, revisions by file and ordinal.
use vstd::prelude::*;

use crate::store::listing::{all_paths, paths_in};
use crate::store::lookup::{context_id_of, file_id_of, lemma_context_id_of, lemma_file_id_of};
use crate::store::in_turn::law_files_are_pruned_apart;
use crate::store::prune::{bases_stay_in_files, prune_outcome, pruned, stays};
use crate::store::record::{
    with_context,
    with_context_seen,
    with_delete,
    with_file,
    with_file_seen,
    with_text,
};
use crate::store::retention::{law_pruning_keeps_what_stays, lemma_pruned_ascends, remains};
use crate::store::rows::{FileView, RecordView};
use crate::store::tables::{paths_differ, rows_differ, Tables};
use crate::text::{lemma_sorted_texts, lemma_text_before_total, text_before};

verus! {

/// An empty timeline has no two rows alike.
pub proof fn law_empty_rows_differ()
    ensures
        rows_differ(Tables::empty()),
{
}

/// Noting a context keeps all rows told apart.
pub proof fn law_noting_a_context_keeps_rows_apart(t: Tables, record: RecordView, seen_ms: i64)
    requires
        t.wf(),
        rows_differ(t),
        with_context(t, record, seen_ms) is Ok,
    ensures
        rows_differ(with_context(t, record, seen_ms)->Ok_0.0),
{
    let (u, id) = with_context(t, record, seen_ms)->Ok_0;
    lemma_context_id_of(t.contexts, record.fingerprint);
    match context_id_of(t.contexts, record.fingerprint) {
        Some(_) => {
            let at = choose|i: int|
                0 <= i < t.contexts.len() && (#[trigger] t.contexts[i]).id == id
                    && t.contexts[i].record.fingerprint == record.fingerprint;
            assert forall|i: int| 0 <= i < t.contexts.len() implies (
            #[trigger] u.contexts[i]).record.fingerprint == t.contexts[i].record.fingerprint by {
                if i < at {
                    assert(t.contexts[i].id < t.contexts[at].id);
                } else if at < i {
                    assert(t.contexts[at].id < t.contexts[i].id);
                }
            }
        },
        None => {
            assert forall|i: int, j: int| 0 <= i < j < u.contexts.len() implies (
            #[trigger] u.contexts[i]).record.fingerprint != (
            #[trigger] u.contexts[j]).record.fingerprint by {
                assert(u.contexts[i] == t.contexts[i]);
                if j < t.contexts.len() {
                    assert(u.contexts[j] == t.contexts[j]);
                }
            }
        },
    }
}

proof fn lemma_contexts_seen_differ(t: Tables, context_id: i64, seen_ms: i64)
    requires
        rows_differ(t),
    ensures
        rows_differ(with_context_seen(t, context_id, seen_ms)),
{
    let u = with_context_seen(t, context_id, seen_ms);
    assert forall|i: int, j: int| 0 <= i < j < u.contexts.len() implies (
    #[trigger] u.contexts[i]).record.fingerprint != (#[trigger] u.contexts[j]).record.fingerprint by {
        assert(t.contexts[i].record.fingerprint != t.contexts[j].record.fingerprint);
    }
}

/// Recording a content keeps all rows told apart.
pub proof fn law_text_keeps_rows_apart(
    t: Tables,
    path: Seq<char>,
    content: Seq<char>,
    recorded_at_ms: i64,
    context_id: i64,
    interval: i64,
)
    requires
        rows_differ(t),
        with_text(t, path, content, recorded_at_ms, context_id, interval) is Ok,
    ensures
        rows_differ(with_text(t, path, content, recorded_at_ms, context_id, interval)->Ok_0.0),
{
    let seen = with_context_seen(t, context_id, recorded_at_ms);
    lemma_contexts_seen_differ(t, context_id, recorded_at_ms);
    let (u, file_id) = with_file(seen, context_id, path, recorded_at_ms)->Ok_0;
    let (v, added) = with_text(t, path, content, recorded_at_ms, context_id, interval)->Ok_0;
    lemma_file_id_of(seen.files, context_id, path);
    assert(paths_differ(u.files)) by {
        assert forall|i: int, j: int| 0 <= i < j < u.files.len() implies !((
        #[trigger] u.files[i]).context_id == (#[trigger] u.files[j]).context_id && u.files[i].path
            == u.files[j].path) by {
            if j < t.files.len() {
                assert(!(t.files[i].context_id == t.files[j].context_id && t.files[i].path
                    == t.files[j].path));
            } else {
                assert(!(seen.files[i].context_id == context_id && seen.files[i].path == path));
            }
        }
    }
    assert(v.files == u.files);
    assert forall|i: int, j: int| 0 <= i < j < v.revisions.len() implies !((
    #[trigger] v.revisions[i]).file_id == (#[trigger] v.revisions[j]).file_id
        && v.revisions[i].ordinal == v.revisions[j].ordinal) by {
        assert(v.revisions[i] == t.revisions[i]);
        if j < t.revisions.len() {
            assert(v.revisions[j] == t.revisions[j]);
        }
    }
}

/// Recording an end keeps all rows told apart.
pub proof fn law_delete_keeps_rows_apart(
    t: Tables,
    path: Seq<char>,
    recorded_at_ms: i64,
    context_id: i64,
)
    requires
        rows_differ(t),
        with_delete(t, path, recorded_at_ms, context_id) is Ok,
    ensures
        rows_differ(with_delete(t, path, recorded_at_ms, context_id)->Ok_0.0),
{
    let seen = with_context_seen(t, context_id, recorded_at_ms);
    lemma_contexts_seen_differ(t, context_id, recorded_at_ms);
    let (v, added) = with_delete(t, path, recorded_at_ms, context_id)->Ok_0;
    if file_id_of(seen.files, context_id, path) is Some {
        let file_id = file_id_of(seen.files, context_id, path)->Some_0;
        assert(v.files == with_file_seen(seen, file_id, recorded_at_ms).files);
        assert forall|i: int, j: int| 0 <= i < j < v.files.len() implies !((
        #[trigger] v.files[i]).context_id == (#[trigger] v.files[j]).context_id && v.files[i].path
            == v.files[j].path) by {
            assert(!(t.files[i].context_id == t.files[j].context_id && t.files[i].path
                == t.files[j].path));
        }
        assert forall|i: int, j: int| 0 <= i < j < v.revisions.len() implies !((
        #[trigger] v.revisions[i]).file_id == (#[trigger] v.revisions[j]).file_id
            && v.revisions[i].ordinal == v.revisions[j].ordinal) by {
            assert(v.revisions[i] == t.revisions[i]);
            if j < t.revisions.len() {
                assert(v.revisions[j] == t.revisions[j]);
            }
        }
    }
}

/// A pruning keeps all rows told apart, where every base stays in its file.
pub proof fn law_pruning_keeps_rows_apart(t: Tables, cutoff_ms: i64)
    requires
        t.wf(),
        bases_stay_in_files(t.revisions),
        prune_outcome(t, cutoff_ms) is Ok,
    ensures
        rows_differ(prune_outcome(t, cutoff_ms)->Ok_0.0),
{
    law_files_are_pruned_apart(t, cutoff_ms);
    law_pruning_keeps_what_stays(t, cutoff_ms);
    lemma_pruned_ascends(t, cutoff_ms);
    let rs = t.revisions;
    let kept = pruned(t, cutoff_ms).revisions;
    assert forall|i: int, j: int| 0 <= i < j < kept.len() implies !((
    #[trigger] kept[i]).file_id == (#[trigger] kept[j]).file_id && kept[i].ordinal
        == kept[j].ordinal) by {
        assert(kept[i].id < kept[j].id);
        let a = choose|a: int|
            0 <= a < rs.len() && stays(rs, #[trigger] rs[a], cutoff_ms) && kept[i] == remains(
                rs,
                rs[a],
                cutoff_ms,
            );
        let b = choose|b: int|
            0 <= b < rs.len() && stays(rs, #[trigger] rs[b], cutoff_ms) && kept[j] == remains(
                rs,
                rs[b],
                cutoff_ms,
            );
        if b < a {
            assert(rs[b].id < rs[a].id);
        }
        assert(a < b);
    }
}

proof fn lemma_path_has_file(fs: Seq<FileView>, context_id: i64, path: Seq<char>)
    requires
        paths_in(fs, context_id).contains(path),
    ensures
        exists|i: int|
            0 <= i < fs.len() && (#[trigger] fs[i]).path == path && fs[i].context_id == context_id,
    decreases fs.len(),
{
    let all = paths_in(fs, context_id);
    let rest = paths_in(fs.drop_last(), context_id);
    let k = choose|k: int| 0 <= k < all.len() && all[k] == path;
    if k < rest.len() {
        assert(rest[k] == path);
        lemma_path_has_file(fs.drop_last(), context_id, path);
        let i = choose|i: int|
            0 <= i < fs.drop_last().len() && (#[trigger] fs.drop_last()[i]).path == path
                && fs.drop_last()[i].context_id == context_id;
        assert(fs[i] == fs.drop_last()[i]);
    } else {
        assert(fs[fs.len() - 1].path == path);
    }
}

proof fn lemma_paths_once(fs: Seq<FileView>, context_id: i64)
    requires
        paths_differ(fs),
    ensures
        paths_in(fs, context_id).no_duplicates(),
    decreases fs.len(),
{
    if fs.len() > 0 {
        let front = fs.drop_last();
        assert forall|i: int, j: int| 0 <= i < j < front.len() implies !((
        #[trigger] front[i]).context_id == (#[trigger] front[j]).context_id && front[i].path
            == front[j].path) by {
            assert(front[i] == fs[i] && front[j] == fs[j]);
        }
        lemma_paths_once(front, context_id);
        let rest = paths_in(front, context_id);
        let f = fs.last();
        if f.context_id == context_id {
            if rest.contains(f.path) {
                lemma_path_has_file(front, context_id, f.path);
                let i = choose|i: int|
                    0 <= i < front.len() && (#[trigger] front[i]).path == f.path
                        && front[i].context_id == context_id;
                assert(fs[i] == front[i]);
                assert(fs[fs.len() - 1] == f);
            }
            let all = paths_in(fs, context_id);
            assert(all == rest.push(f.path));
            assert forall|i: int, j: int| 0 <= i < j < all.len() implies all[i] != all[j] by {
                if j == rest.len() {
                    assert(rest[i] == all[i]);
                }
            }
        }
    }
}

/// The paths that a context has ever tracked are listed strictly in order, each of them once.
pub proof fn law_tracked_paths_ascend(t: Tables, context_id: i64)
    requires
        t.wf(),
    ensures
        forall|i: int, j: int|
            0 <= i < j < all_paths(t, context_id).len() ==> text_before(
                #[trigger] all_paths(t, context_id)[i],
                #[trigger] all_paths(t, context_id)[j],
            ),
{
    let listed = paths_in(t.files, context_id);
    let all = all_paths(t, context_id);
    lemma_sorted_texts(listed);
    lemma_paths_once(t.files, context_id);
    listed.unique_seq_to_set();
    assert(all.to_set() =~= listed.to_set()) by {
        assert forall|y: Seq<char>| all.to_set().contains(y) == listed.to_set().contains(y) by {
            assert(all.contains(y) <==> listed.contains(y));
        }
    }
    all.lemma_no_dup_set_cardinality();
    assert forall|i: int, j: int| 0 <= i < j < all.len() implies text_before(
        #[trigger] all[i],
        #[trigger] all[j],
    ) by {
        lemma_text_before_total(all[i], all[j]);
    }
}

} // verus!
