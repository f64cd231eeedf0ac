//! What becomes of the layouts that a database may have.
use vstd::prelude::*;
use vstd::utf8::*;

use crate::delta::patch_outcome;
use crate::store::migrate::{
    by_path,
    content_after,
    file_placed,
    git_columns,
    legacy_content,
    legacy_git_context,
    legacy_history,
    legacy_newer,
    legacy_placed,
    missing_from,
    planned_schema,
    replayed,
    LegacyFileView,
    LegacyRevisionView,
    SchemaPlan,
};
use crate::store::rows::{EventType, StorageKind};
use crate::store::tables::StoreError;
use crate::text::text_before;

verus! {

// ---------------------------------------------------------------------------
// Layouts
// ---------------------------------------------------------------------------

/// A database of the second version is kept, one of the first version is migrated, and one
/// without a version is migrated if it has the files of the first layout and is otherwise
/// created where it has no table at all. Nothing else is accepted.
pub proof fn law_every_layout_has_its_plan(
    version: i64,
    has_legacy_files: bool,
    has_contexts: bool,
    has_tracked_files: bool,
    has_revisions: bool,
)
    ensures
        ({
            let plan = planned_schema(
                version,
                has_legacy_files,
                has_contexts,
                has_tracked_files,
                has_revisions,
            );
            let is_empty = !has_legacy_files && !has_contexts && !has_tracked_files
                && !has_revisions;
            &&& plan == Ok::<SchemaPlan, StoreError>(SchemaPlan::Support) <==> version == 2
            &&& plan == Ok::<SchemaPlan, StoreError>(SchemaPlan::Migrate) <==> version == 1
            &&& plan == Ok::<SchemaPlan, StoreError>(SchemaPlan::AddColumnsAndMigrate) <==> version
                == 0 && has_legacy_files
            &&& plan == Ok::<SchemaPlan, StoreError>(SchemaPlan::Create) <==> version == 0
                && is_empty
            &&& plan is Err ==> plan->Err_0 == StoreError::UnsupportedVersion(version)
        }),
{
}

/// The columns that a table lacks are those of the Git columns that it does not have, in
/// their order.
pub proof fn law_missing_columns_are_those_not_there(
    names: Seq<Seq<char>>,
    columns: Seq<Seq<char>>,
)
    ensures
        missing_from(names, columns) == names.filter(|name: Seq<char>| !columns.contains(name)),
    decreases names.len(),
{
    reveal(Seq::filter);
    if names.len() > 0 {
        law_missing_columns_are_those_not_there(names.drop_last(), columns);
    }
}

/// A table that lacks all Git columns gets the five of them, and one that has them gets
/// none.
pub proof fn law_git_columns(columns: Seq<Seq<char>>)
    ensures
        missing_from(git_columns(), Seq::empty()) == seq![
            "git_worktree_root"@,
            "git_common_dir"@,
            "git_branch_name"@,
            "git_head_commit"@,
            "git_detached_head"@,
        ],
        columns.contains("git_worktree_root"@) && columns.contains("git_common_dir"@)
            && columns.contains("git_branch_name"@) && columns.contains("git_head_commit"@)
            && columns.contains("git_detached_head"@) ==> missing_from(git_columns(), columns).len()
            == 0,
{
    lemma_nothing_is_there(git_columns());
    if columns.contains("git_worktree_root"@) && columns.contains("git_common_dir"@)
        && columns.contains("git_branch_name"@) && columns.contains("git_head_commit"@)
        && columns.contains("git_detached_head"@) {
        lemma_all_are_there(git_columns(), columns);
    }
}

proof fn lemma_nothing_is_there(names: Seq<Seq<char>>)
    ensures
        missing_from(names, Seq::empty()) == names,
    decreases names.len(),
{
    if names.len() > 0 {
        lemma_nothing_is_there(names.drop_last());
        assert(names.drop_last().push(names.last()) =~= names);
    } else {
        assert(missing_from(names, Seq::empty()) =~= names);
    }
}

proof fn lemma_all_are_there(names: Seq<Seq<char>>, columns: Seq<Seq<char>>)
    requires
        forall|i: int| 0 <= i < names.len() ==> columns.contains(#[trigger] names[i]),
    ensures
        missing_from(names, columns).len() == 0,
    decreases names.len(),
{
    if names.len() > 0 {
        assert(columns.contains(names[names.len() - 1]));
        assert forall|i: int| 0 <= i < names.drop_last().len() implies columns.contains(
            #[trigger] names.drop_last()[i],
        ) by {
            assert(names.drop_last()[i] == names[i]);
        }
        lemma_all_are_there(names.drop_last(), columns);
    }
}

// ---------------------------------------------------------------------------
// Legacy rows
// ---------------------------------------------------------------------------

/// Whether legacy revisions stand in the order of their times, and of their numbers where
/// the times are the same.
pub open spec fn oldest_stand_first(rs: Seq<LegacyRevisionView>) -> bool {
    forall|i: int, j: int|
        0 <= i < j < rs.len() ==> {
            ||| (#[trigger] rs[i]).recorded_at_ms < (#[trigger] rs[j]).recorded_at_ms
            ||| rs[i].recorded_at_ms == rs[j].recorded_at_ms && rs[i].id <= rs[j].id
        }
}

proof fn lemma_placed(sorted: Seq<LegacyRevisionView>, r: LegacyRevisionView)
    requires
        oldest_stand_first(sorted),
    ensures
        oldest_stand_first(legacy_placed(sorted, r)),
        legacy_placed(sorted, r).to_multiset() == sorted.to_multiset().insert(r),
        sorted.len() > 0 && legacy_newer(sorted.last(), r) ==> legacy_placed(sorted, r).last()
            == sorted.last(),
        sorted.len() == 0 || !legacy_newer(sorted.last(), r) ==> legacy_placed(sorted, r)
            == sorted.push(r),
        forall|i: int|
            0 <= i < legacy_placed(sorted, r).len() ==> (#[trigger] legacy_placed(sorted, r)[i]) == r
                || sorted.contains(legacy_placed(sorted, r)[i]),
    decreases sorted.len(),
{
    broadcast use vstd::seq_lib::group_to_multiset_ensures;

    let placed = legacy_placed(sorted, r);
    if sorted.len() > 0 && legacy_newer(sorted.last(), r) {
        let rest = sorted.drop_last();
        let last = sorted.last();
        assert(last == sorted[sorted.len() - 1]);
        assert forall|i: int, j: int| 0 <= i < j < rest.len() implies {
            ||| (#[trigger] rest[i]).recorded_at_ms < (#[trigger] rest[j]).recorded_at_ms
            ||| rest[i].recorded_at_ms == rest[j].recorded_at_ms && rest[i].id <= rest[j].id
        } by {
            assert(rest[i] == sorted[i] && rest[j] == sorted[j]);
        }
        lemma_placed(rest, r);
        let before = legacy_placed(rest, r);
        assert(sorted =~= rest.push(last));
        assert forall|i: int, j: int| 0 <= i < j < placed.len() implies {
            ||| (#[trigger] placed[i]).recorded_at_ms < (#[trigger] placed[j]).recorded_at_ms
            ||| placed[i].recorded_at_ms == placed[j].recorded_at_ms && placed[i].id
                <= placed[j].id
        } by {
            assert(placed[i] == before[i]);
            if j < before.len() {
                assert(placed[j] == before[j]);
            } else {
                if before[i] != r {
                    assert(rest.contains(before[i]));
                    let k = choose|k: int| 0 <= k < rest.len() && rest[k] == before[i];
                    assert(sorted[k] == rest[k]);
                    assert(sorted[k].recorded_at_ms <= last.recorded_at_ms);
                }
            }
        }
        assert forall|i: int| 0 <= i < placed.len() implies (#[trigger] placed[i]) == r
            || sorted.contains(placed[i]) by {
            if i < before.len() {
                assert(placed[i] == before[i]);
                if before[i] != r {
                    let k = choose|k: int| 0 <= k < rest.len() && rest[k] == before[i];
                    assert(sorted[k] == rest[k]);
                }
            } else {
                assert(placed[i] == sorted[sorted.len() - 1]);
            }
        }
        assert(before.push(last).to_multiset() =~= rest.push(last).to_multiset().insert(r));
    } else {
        assert forall|i: int, j: int| 0 <= i < j < placed.len() implies {
            ||| (#[trigger] placed[i]).recorded_at_ms < (#[trigger] placed[j]).recorded_at_ms
            ||| placed[i].recorded_at_ms == placed[j].recorded_at_ms && placed[i].id
                <= placed[j].id
        } by {
            assert(placed[i] == sorted[i]);
            if j < sorted.len() {
                assert(placed[j] == sorted[j]);
            } else {
                let last = sorted[sorted.len() - 1];
                if i < sorted.len() - 1 {
                    assert(sorted[i].recorded_at_ms <= last.recorded_at_ms);
                }
            }
        }
        assert forall|i: int| 0 <= i < placed.len() implies (#[trigger] placed[i]) == r
            || sorted.contains(placed[i]) by {
            if i < sorted.len() {
                assert(placed[i] == sorted[i]);
            }
        }
    }
}

/// The history of a legacy file holds every revision of the file and no other, each as often
/// as it is there, the oldest first.
pub proof fn law_legacy_history_is_whole(rs: Seq<LegacyRevisionView>, file_id: i64)
    ensures
        legacy_history(rs, file_id).to_multiset() == rs.filter(
            |r: LegacyRevisionView| r.file_id == file_id,
        ).to_multiset(),
        oldest_stand_first(legacy_history(rs, file_id)),
    decreases rs.len(),
{
    broadcast use vstd::seq_lib::group_to_multiset_ensures;

    reveal(Seq::filter);
    if rs.len() > 0 {
        law_legacy_history_is_whole(rs.drop_last(), file_id);
        if rs.last().file_id == file_id {
            lemma_placed(legacy_history(rs.drop_last(), file_id), rs.last());
        }
    }
}

/// A legacy revision that ends a file leaves no content. Any other leaves its copy, or what
/// its patch makes of the content before it; it is an error if that is not there.
pub proof fn law_contents_of_legacy_revisions(
    previous: Option<Seq<char>>,
    r: LegacyRevisionView,
    text: Seq<char>,
)
    ensures
        r.event_type == EventType::Delete ==> content_after(previous, r) == Ok::<
            Option<Seq<char>>,
            StoreError,
        >(None),
        r.event_type != EventType::Delete && r.storage_kind == StorageKind::Full && r.payload
            == Some(encode_utf8(text)) ==> content_after(previous, r) == Ok::<
            Option<Seq<char>>,
            StoreError,
        >(Some(text)),
        r.event_type != EventType::Delete && r.storage_kind == StorageKind::Patch && r.payload is Some
            && previous is Some && patch_outcome(previous->Some_0, r.payload->Some_0) is Ok
            ==> content_after(previous, r) == Ok::<Option<Seq<char>>, StoreError>(
            Some(patch_outcome(previous->Some_0, r.payload->Some_0)->Ok_0),
        ),
        r.event_type != EventType::Delete && (r.payload is None || r.storage_kind
            == StorageKind::Absent || (r.storage_kind == StorageKind::Patch && previous is None))
            ==> content_after(previous, r) is Err,
        r.event_type != EventType::Delete && r.storage_kind == StorageKind::Full && r.payload is Some
            && !valid_utf8(r.payload->Some_0) ==> legacy_content(previous, r) == Err::<
            Seq<char>,
            StoreError,
        >(StoreError::LegacyInvalidUtf8),
{
    encode_utf8_valid_utf8(text);
    encode_utf8_decode_utf8(text);
}

/// A legacy row tells of a Git context exactly where it names a worktree and a common
/// directory. All that it says of the context is kept.
pub proof fn law_git_contexts_of_legacy_rows(
    worktree_root: Option<Seq<char>>,
    common_git_dir: Option<Seq<char>>,
    branch_name: Option<Seq<char>>,
    head_commit: Option<Seq<char>>,
    detached_head: i64,
)
    ensures
        ({
            let found = legacy_git_context(
                worktree_root,
                common_git_dir,
                branch_name,
                head_commit,
                detached_head,
            );
            &&& found is Some <==> worktree_root is Some && common_git_dir is Some
            &&& found matches Some(git) ==> {
                &&& Some(git.worktree_root) == worktree_root
                &&& Some(git.common_git_dir) == common_git_dir
                &&& git.branch_name == branch_name
                &&& git.head_commit == head_commit
                &&& git.detached_head <==> detached_head != 0
            }
        }),
{
}

/// Replaying revisions is replaying all but the last and then the last one.
pub proof fn law_replaying(rs: Seq<LegacyRevisionView>, r: LegacyRevisionView)
    ensures
        replayed(Seq::empty()) == Ok::<Option<Seq<char>>, StoreError>(None),
        replayed(rs) is Ok ==> replayed(rs.push(r)) == content_after(replayed(rs)->Ok_0, r),
        replayed(rs) is Err ==> replayed(rs.push(r)) == replayed(rs),
{
    assert(rs.push(r).drop_last() =~= rs);
}

proof fn lemma_placed_file(sorted: Seq<LegacyFileView>, f: LegacyFileView)
    ensures
        file_placed(sorted, f).to_multiset() == sorted.to_multiset().insert(f),
    decreases sorted.len(),
{
    broadcast use vstd::seq_lib::group_to_multiset_ensures;

    if sorted.len() > 0 && text_before(f.path, sorted.last().path) {
        let rest = sorted.drop_last();
        lemma_placed_file(rest, f);
        assert(sorted =~= rest.push(sorted.last()));
        assert(file_placed(rest, f).push(sorted.last()).to_multiset() =~= rest.push(
            sorted.last(),
        ).to_multiset().insert(f));
    }
}

/// Every legacy file is migrated, each as often as it is there.
pub proof fn law_every_legacy_file_is_migrated(fs: Seq<LegacyFileView>)
    ensures
        by_path(fs).to_multiset() == fs.to_multiset(),
    decreases fs.len(),
{
    broadcast use vstd::seq_lib::group_to_multiset_ensures;

    if fs.len() > 0 {
        law_every_legacy_file_is_migrated(fs.drop_last());
        lemma_placed_file(by_path(fs.drop_last()), fs.last());
        assert(fs =~= fs.drop_last().push(fs.last()));
    } else {
        assert(by_path(fs) =~= fs);
    }
}

} // verus!
