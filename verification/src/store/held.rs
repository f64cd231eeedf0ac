//! What the rows of a timeline are, and what becomes of them with each change.
use vstd::prelude::*;
use vstd::string::*;

use crate::git::{git_fingerprint, local_fingerprint, ContextKind, GitContextView};
use crate::store::listing::counted;
use crate::store::rows::{
    record_of,
    ChangeView,
    ContextView,
    EventType,
    FileView,
    RevisionView,
    StorageKind,
    WatcherView,
};
use crate::store::tables::{apply_change, replay, without_revision, Tables};

verus! {

// ---------------------------------------------------------------------------
// Rows
// ---------------------------------------------------------------------------

/// Events and kinds of storage are stored under these names.
pub proof fn law_stored_names()
    ensures
        EventType::Create.name() == "create"@,
        EventType::Modify.name() == "modify"@,
        EventType::Delete.name() == "delete"@,
        StorageKind::Full.name() == "full"@,
        StorageKind::Patch.name() == "patch"@,
        StorageKind::Absent.name() == "none"@,
{
}

/// A Git context is recorded with all that is known of it, and a project without Git by its
/// directory alone; each under its own fingerprint.
pub proof fn law_records_tell_their_context(root: Seq<char>, git: GitContextView)
    ensures
        ({
            let r = record_of(root, Some(git));
            &&& r.kind == ContextKind::Git
            &&& r.fingerprint == git_fingerprint(git)
            &&& r.worktree_root == Some(git.worktree_root)
            &&& r.common_git_dir == Some(git.common_git_dir)
            &&& r.branch_name == git.branch_name
            &&& r.head_commit == git.head_commit
            &&& r.detached_head == git.detached_head
        }),
        ({
            let r = record_of(root, None);
            &&& r.kind == ContextKind::Local
            &&& r.fingerprint == local_fingerprint(root)
            &&& r.worktree_root is None
            &&& r.common_git_dir is None
            &&& r.branch_name is None
            &&& r.head_commit is None
            &&& !r.detached_head
        }),
        record_of(root, Some(git)).fingerprint != record_of(root, None).fingerprint,
{
    crate::git::law_fingerprints_tell_projects_apart(root, root, git);
}

/// A timeline can be opened exactly where the numbers of its rows ascend up to the last ones
/// given out, no two contexts have the same fingerprint, no two files of a context the same
/// path, and no two revisions of a file the same place.
pub proof fn law_what_can_be_opened(t: Tables)
    ensures
        t.keyed() <==> {
            &&& t.last_context_id >= 0 && t.last_file_id >= 0 && t.last_revision_id >= 0
            &&& forall|i: int| 0 <= i < t.contexts.len() ==> (#[trigger] t.contexts[i]).id
                <= t.last_context_id
            &&& forall|i: int| 0 <= i < t.files.len() ==> (#[trigger] t.files[i]).id
                <= t.last_file_id
            &&& forall|i: int| 0 <= i < t.revisions.len() ==> (#[trigger] t.revisions[i]).id
                <= t.last_revision_id
            &&& forall|i: int, j: int|
                0 <= i < j < t.contexts.len() ==> (#[trigger] t.contexts[i]).id < (
                #[trigger] t.contexts[j]).id && t.contexts[i].record.fingerprint
                    != t.contexts[j].record.fingerprint
            &&& forall|i: int, j: int|
                0 <= i < j < t.files.len() ==> (#[trigger] t.files[i]).id < (
                #[trigger] t.files[j]).id && !(t.files[i].context_id == t.files[j].context_id
                    && t.files[i].path == t.files[j].path)
            &&& forall|i: int, j: int|
                0 <= i < j < t.revisions.len() ==> (#[trigger] t.revisions[i]).id < (
                #[trigger] t.revisions[j]).id && !(t.revisions[i].file_id == t.revisions[j].file_id
                    && t.revisions[i].ordinal == t.revisions[j].ordinal)
        },
{
}

/// Rows are counted one by one, up to the greatest number that can be shown.
pub proof fn law_counts(n: nat)
    ensures
        n <= i64::MAX ==> counted(n) == n,
        n > i64::MAX ==> counted(n) == i64::MAX,
{
}

// ---------------------------------------------------------------------------
// Changes
// ---------------------------------------------------------------------------

/// A new row comes behind the others and has the last number; no other row changes.
pub proof fn law_inserted_rows(t: Tables, c: ContextView, f: FileView, r: RevisionView)
    ensures
        apply_change(t, ChangeView::InsertContext(c)) == (Tables {
            contexts: t.contexts.push(c),
            last_context_id: c.id,
            ..t
        }),
        apply_change(t, ChangeView::InsertFile(f)) == (Tables {
            files: t.files.push(f),
            last_file_id: f.id,
            ..t
        }),
        apply_change(t, ChangeView::InsertRevision(r)) == (Tables {
            revisions: t.revisions.push(r),
            last_revision_id: r.id,
            ..t
        }),
{
}

/// An updated row stands where the row of its number stood, and no other row changes.
pub proof fn law_updated_rows(t: Tables, c: ContextView, f: FileView, r: RevisionView)
    ensures
        ({
            let after = apply_change(t, ChangeView::UpdateContext(c));
            &&& after.contexts.len() == t.contexts.len()
            &&& forall|i: int|
                0 <= i < t.contexts.len() ==> {
                    &&& (#[trigger] t.contexts[i]).id == c.id ==> after.contexts[i] == c
                    &&& t.contexts[i].id != c.id ==> after.contexts[i] == t.contexts[i]
                }
            &&& after == Tables { contexts: after.contexts, ..t }
        }),
        ({
            let after = apply_change(t, ChangeView::UpdateFile(f));
            &&& after.files.len() == t.files.len()
            &&& forall|i: int|
                0 <= i < t.files.len() ==> {
                    &&& (#[trigger] t.files[i]).id == f.id ==> after.files[i] == f
                    &&& t.files[i].id != f.id ==> after.files[i] == t.files[i]
                }
            &&& after == Tables { files: after.files, ..t }
        }),
        ({
            let after = apply_change(t, ChangeView::UpdateRevision(r));
            &&& after.revisions.len() == t.revisions.len()
            &&& forall|i: int|
                0 <= i < t.revisions.len() ==> {
                    &&& (#[trigger] t.revisions[i]).id == r.id ==> after.revisions[i] == r
                    &&& t.revisions[i].id != r.id ==> after.revisions[i] == t.revisions[i]
                }
            &&& after == Tables { revisions: after.revisions, ..t }
        }),
{
}

/// Without its base, where that is the row of a number.
pub open spec fn without_base(r: RevisionView, gone: i64) -> RevisionView {
    RevisionView {
        base_revision_id: if r.base_revision_id == Some(gone) {
            None
        } else {
            r.base_revision_id
        },
        ..r
    }
}

proof fn lemma_removed(rs: Seq<RevisionView>, gone: i64)
    ensures
        without_revision(rs, gone) == rs.filter(|r: RevisionView| r.id != gone).map_values(
            |r: RevisionView| without_base(r, gone),
        ),
    decreases rs.len(),
{
    reveal(Seq::filter);
    let other = |r: RevisionView| r.id != gone;
    let cut = |r: RevisionView| without_base(r, gone);
    if rs.len() > 0 {
        lemma_removed(rs.drop_last(), gone);
        let before = rs.drop_last().filter(other);
        assert(before.push(rs.last()).map_values(cut) =~= before.map_values(cut).push(
            cut(rs.last()),
        ));
    } else {
        assert(rs.filter(other).map_values(cut) =~= Seq::<RevisionView>::empty());
    }
}

/// A removed revision is gone, all others stay in their order, and those that rested on it
/// rest on nothing.
pub proof fn law_removed_rows(t: Tables, gone: i64)
    ensures
        apply_change(t, ChangeView::DeleteRevision(gone)) == (Tables {
            revisions: t.revisions.filter(|r: RevisionView| r.id != gone).map_values(
                |r: RevisionView| without_base(r, gone),
            ),
            ..t
        }),
{
    lemma_removed(t.revisions, gone);
}

/// A number that is skipped is used up, and a sign of life touches no row.
pub proof fn law_other_changes(t: Tables, w: WatcherView)
    ensures
        t.last_context_id < i64::MAX ==> apply_change(t, ChangeView::SkipContextNumber) == (Tables {
            last_context_id: (t.last_context_id + 1) as i64,
            ..t
        }),
        t.last_file_id < i64::MAX ==> apply_change(t, ChangeView::SkipFileNumber) == (Tables {
            last_file_id: (t.last_file_id + 1) as i64,
            ..t
        }),
        apply_change(t, ChangeView::SetWatcher(w)) == (Tables { watcher: Some(w), ..t }),
{
}

/// Changes are replayed in their order, one after the other.
pub proof fn law_changes_are_replayed_in_order(
    t: Tables,
    a: Seq<ChangeView>,
    b: Seq<ChangeView>,
    change: ChangeView,
)
    ensures
        replay(t, seq![change]) == apply_change(t, change),
        replay(t, a + b) == replay(replay(t, a), b),
    decreases b.len(),
{
    assert(seq![change].drop_last() =~= Seq::<ChangeView>::empty());
    assert(replay(t, Seq::<ChangeView>::empty()) == t);
    if b.len() > 0 {
        law_changes_are_replayed_in_order(t, a, b.drop_last(), change);
        assert((a + b).drop_last() =~= a + b.drop_last());
        assert((a + b).last() == b.last());
    } else {
        assert(a + b =~= a);
    }
}

} // verus!
