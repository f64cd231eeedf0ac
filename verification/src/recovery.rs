//! What a restore leaves of a project.
use vstd::prelude::*;

use crate::path::{is_absolute, is_normal, joined_path, normalized, resolved_input};
use crate::places::law_arguments_mean_their_files;
use crate::restore::{
    action_path,
    carried_out,
    file_plan,
    holds_state,
    law_plan_covers_every_path,
    law_restored_file_is_as_it_was,
    law_restored_project_is_as_it_was,
    paths_plan,
    project_plan,
    removals,
    step_of,
    steps_like,
    writes,
    ActionView,
    RestoreError,
    RestoreStep,
};
use crate::store::listing::all_paths;
use crate::store::lookup::state_at;
use crate::store::rows::FileView;
use crate::store::shown::law_all_paths_are_listed;
use crate::store::tables::Tables;

verus! {

// ---------------------------------------------------------------------------
// The project
// ---------------------------------------------------------------------------

/// Restoring a project leaves every file that is tracked in the context as it was at the
/// time: with the text that it had, or absent where it was not there. Every other file is
/// left as it is.
pub proof fn law_every_tracked_file_is_restored(
    t: Tables,
    root: Seq<char>,
    at_ms: i64,
    context_id: i64,
    disk: Map<Seq<char>, Seq<char>>,
)
    requires
        project_plan(t, root, at_ms, Some(context_id)) is Ok,
        forall|i: int|
            0 <= i < t.files.len() && (#[trigger] t.files[i]).context_id == context_id
                ==> !is_absolute(t.files[i].path),
    ensures
        ({
            let after = carried_out(disk, project_plan(t, root, at_ms, Some(context_id))->Ok_0);
            &&& forall|i: int|
                0 <= i < t.files.len() && (#[trigger] t.files[i]).context_id == context_id ==> {
                    &&& state_at(t, t.files[i].path, at_ms, context_id) is Ok
                    &&& holds_state(
                        after,
                        joined_path(root, t.files[i].path),
                        state_at(t, t.files[i].path, at_ms, context_id)->Ok_0,
                    )
                }
            &&& forall|other: Seq<char>|
                (forall|i: int|
                    0 <= i < t.files.len() && (#[trigger] t.files[i]).context_id == context_id
                        ==> joined_path(root, t.files[i].path) != other) ==> {
                    &&& #[trigger] after.contains_key(other) == disk.contains_key(other)
                    &&& after[other] == disk[other]
                }
        }),
{
    let paths = all_paths(t, context_id);
    let plan = paths_plan(t, root, paths, at_ms, context_id)->Ok_0;
    let after = carried_out(disk, plan);
    law_all_paths_are_listed(t, context_id);
    assert forall|i: int| 0 <= i < paths.len() implies !is_absolute(#[trigger] paths[i]) by {
        assert(paths.contains(paths[i]));
    }
    law_restored_project_is_as_it_was(t, root, paths, at_ms, context_id, disk);
    law_plan_covers_every_path(t, root, paths, at_ms, context_id);
    assert forall|i: int|
        0 <= i < t.files.len() && (#[trigger] t.files[i]).context_id == context_id implies {
        &&& state_at(t, t.files[i].path, at_ms, context_id) is Ok
        &&& holds_state(
            after,
            joined_path(root, t.files[i].path),
            state_at(t, t.files[i].path, at_ms, context_id)->Ok_0,
        )
    } by {
        assert(paths.contains(t.files[i].path));
        let k = choose|k: int| 0 <= k < paths.len() && paths[k] == t.files[i].path;
        assert(state_at(t, paths[k], at_ms, context_id) is Ok);
    }
    assert forall|other: Seq<char>|
        (forall|i: int|
            0 <= i < t.files.len() && (#[trigger] t.files[i]).context_id == context_id
                ==> joined_path(root, t.files[i].path) != other) implies {
        &&& #[trigger] after.contains_key(other) == disk.contains_key(other)
        &&& after[other] == disk[other]
    } by {
        assert forall|k: int| 0 <= k < paths.len() implies joined_path(root, #[trigger] paths[k])
            != other by {
            assert(paths.contains(paths[k]));
        }
    }
}

proof fn lemma_plan_of_readable(
    t: Tables,
    root: Seq<char>,
    paths: Seq<Seq<char>>,
    at_ms: i64,
    context_id: i64,
)
    requires
        forall|i: int|
            0 <= i < paths.len() ==> state_at(t, #[trigger] paths[i], at_ms, context_id) is Ok,
    ensures
        paths_plan(t, root, paths, at_ms, context_id) is Ok,
    decreases paths.len(),
{
    if paths.len() > 0 {
        let rest = paths.drop_last();
        assert forall|i: int| 0 <= i < rest.len() implies state_at(
            t,
            #[trigger] rest[i],
            at_ms,
            context_id,
        ) is Ok by {
            assert(rest[i] == paths[i]);
        }
        lemma_plan_of_readable(t, root, rest, at_ms, context_id);
        assert(state_at(t, paths[paths.len() - 1], at_ms, context_id) is Ok);
    }
}

/// A project can be restored wherever the state of each of its tracked files can be read.
/// Without a context there is nothing to do.
pub proof fn law_readable_projects_can_be_restored(
    t: Tables,
    root: Seq<char>,
    at_ms: i64,
    context_id: i64,
)
    ensures
        (forall|i: int|
            0 <= i < t.files.len() && (#[trigger] t.files[i]).context_id == context_id ==> state_at(
                t,
                t.files[i].path,
                at_ms,
                context_id,
            ) is Ok) ==> project_plan(t, root, at_ms, Some(context_id)) is Ok,
        project_plan(t, root, at_ms, None) == Ok::<Seq<ActionView>, RestoreError>(Seq::empty()),
{
    if forall|i: int|
        0 <= i < t.files.len() && (#[trigger] t.files[i]).context_id == context_id ==> state_at(
            t,
            t.files[i].path,
            at_ms,
            context_id,
        ) is Ok {
        let paths = all_paths(t, context_id);
        law_all_paths_are_listed(t, context_id);
        assert forall|k: int| 0 <= k < paths.len() implies state_at(
            t,
            #[trigger] paths[k],
            at_ms,
            context_id,
        ) is Ok by {
            assert(paths.contains(paths[k]));
        }
        lemma_plan_of_readable(t, root, paths, at_ms, context_id);
    }
}

/// A plan does as many things as there are files tracked in the context.
pub proof fn law_plans_are_as_long_as_the_project(
    t: Tables,
    root: Seq<char>,
    at_ms: i64,
    context_id: i64,
)
    requires
        project_plan(t, root, at_ms, Some(context_id)) is Ok,
    ensures
        project_plan(t, root, at_ms, Some(context_id))->Ok_0.len() == t.files.filter(
            |f: FileView| f.context_id == context_id,
        ).len(),
{
    broadcast use vstd::seq_lib::group_to_multiset_ensures;

    let paths = all_paths(t, context_id);
    law_all_paths_are_listed(t, context_id);
    law_plan_covers_every_path(t, root, paths, at_ms, context_id);
    assert(paths.to_multiset().len() == paths.len());
}

// ---------------------------------------------------------------------------
// One file
// ---------------------------------------------------------------------------

/// Restoring a file by its path in the project leaves that file as it was, and no other file
/// is touched. Without a context nothing can be restored.
pub proof fn law_the_file_asked_for_is_restored(
    t: Tables,
    root: Seq<char>,
    file: Seq<char>,
    at_ms: i64,
    context_id: i64,
    disk: Map<Seq<char>, Seq<char>>,
    other: Seq<char>,
)
    requires
        is_absolute(root),
        root.last() != '/',
        is_normal(file),
        normalized(root, file) == Ok::<Seq<char>, crate::path::PathError>(file),
    ensures
        file_plan(t, root, file, at_ms, None) == Err::<Seq<ActionView>, RestoreError>(
            RestoreError::NoData,
        ),
        state_at(t, file, at_ms, context_id) is Ok <==> file_plan(
            t,
            root,
            file,
            at_ms,
            Some(context_id),
        ) is Ok,
        file_plan(t, root, file, at_ms, Some(context_id)) matches Ok(plan) ==> {
            let whole = root + seq!['/'] + file;
            let after = carried_out(disk, plan);
            &&& plan.len() == 1
            &&& action_path(plan[0]) == whole
            &&& holds_state(after, whole, state_at(t, file, at_ms, context_id)->Ok_0)
            &&& other != whole ==> after.contains_key(other) == disk.contains_key(other)
                && after[other] == disk[other]
        },
{
    law_arguments_mean_their_files(root, file);
    if file_plan(t, root, file, at_ms, Some(context_id)) is Ok {
        law_restored_file_is_as_it_was(t, root, file, at_ms, context_id, disk, other);
    }
    assert(resolved_input(root, file)->Ok_0 == root + seq!['/'] + file);
}

// ---------------------------------------------------------------------------
// Counts
// ---------------------------------------------------------------------------

/// The files that a plan writes and those that it removes are counted one by one.
pub proof fn law_actions_are_counted(actions: Seq<ActionView>)
    ensures
        writes(actions) == actions.filter(|a: ActionView| a is Write).len(),
        removals(actions) == actions.filter(|a: ActionView| a is Remove).len(),
    decreases actions.len(),
{
    reveal(Seq::filter);
    if actions.len() > 0 {
        law_actions_are_counted(actions.drop_last());
    }
}

/// The steps of a kind are counted one by one.
pub proof fn law_steps_are_counted(steps: Seq<RestoreStep>, kind: RestoreStep)
    ensures
        steps_like(steps, kind) == steps.filter(|s: RestoreStep| s == kind).len(),
    decreases steps.len(),
{
    reveal(Seq::filter);
    if steps.len() > 0 {
        law_steps_are_counted(steps.drop_last(), kind);
    }
}

/// A file is written whether it is there or not, and removed only where it is there.
pub proof fn law_steps(path: Seq<char>, content: Seq<char>, exists: bool)
    ensures
        step_of(ActionView::Write { path, content }, exists) == RestoreStep::WriteFile,
        exists ==> step_of(ActionView::Remove { path }, exists) == RestoreStep::RemoveFile,
        !exists ==> step_of(ActionView::Remove { path }, exists) == RestoreStep::Nothing,
{
}

} // verus!
