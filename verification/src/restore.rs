//! Bringing files back to what they were: which ones to write and which ones to remove.
use vstd::prelude::*;
use vstd::string::*;

use crate::path::{
    is_absolute,
    join_path,
    joined_path,
    normalize_relative_path,
    normalized,
    path_message,
    resolve_input_path,
    resolved_input,
    PathError,
};
use crate::store::listing::all_paths;
use crate::store::lookup::state_at;
use crate::store::tables::{store_message, StoreError, Tables, TimelineStore};
use crate::store::unique::law_tracked_paths_ascend;
use crate::text::{byte_len, opt_text, size_of_text, text_before, texts};

verus! {

/// One thing to do to a file.
#[derive(Debug, Clone)]
pub enum RestoreAction {
    Write { path: String, content: String },
    Remove { path: String },
}

/// The view of a [`RestoreAction`].
pub enum ActionView {
    Write { path: Seq<char>, content: Seq<char> },
    Remove { path: Seq<char> },
}

impl View for RestoreAction {
    type V = ActionView;

    open spec fn view(&self) -> ActionView {
        match *self {
            RestoreAction::Write { path, content } => ActionView::Write {
                path: path@,
                content: content@,
            },
            RestoreAction::Remove { path } => ActionView::Remove { path: path@ },
        }
    }
}

/// The views of actions.
pub open spec fn action_views(v: Seq<RestoreAction>) -> Seq<ActionView> {
    v.map_values(|a: RestoreAction| a@)
}

/// What an action comes to, once it is known whether the file is there.
#[derive(Debug, Clone, Copy, PartialEq, Eq, Structural)]
pub enum RestoreStep {
    WriteFile,
    RemoveFile,
    /// The file to remove is not there.
    Nothing,
}

impl RestoreAction {
    /// The word for the action.
    pub fn label(&self) -> (s: &'static str)
        ensures
            s@ == (match self@ {
                ActionView::Write { .. } => "WRITE"@,
                ActionView::Remove { .. } => "REMOVE"@,
            }),
    {
        match self {
            RestoreAction::Write { .. } => "WRITE",
            RestoreAction::Remove { .. } => "REMOVE",
        }
    }

    /// The file that the action is on.
    pub fn path(&self) -> (s: &str)
        ensures
            s@ == action_path(self@),
    {
        match self {
            RestoreAction::Write { path, .. } => path.as_str(),
            RestoreAction::Remove { path } => path.as_str(),
        }
    }

    /// The size of what is written.
    pub fn size_bytes(&self) -> (res: Option<usize>)
        ensures
            match self@ {
                ActionView::Write { content, .. } => res is Some && res->Some_0 == byte_len(
                    content,
                ),
                ActionView::Remove { .. } => res is None,
            },
    {
        match self {
            RestoreAction::Write { content, .. } => Some(size_of_text(content.as_str())),
            RestoreAction::Remove { .. } => None,
        }
    }

    /// What the action comes to. A file that is not there is not removed.
    pub fn step(&self, exists: bool) -> (step: RestoreStep)
        ensures
            step == step_of(self@, exists),
    {
        match self {
            RestoreAction::Write { .. } => RestoreStep::WriteFile,
            RestoreAction::Remove { .. } => if exists {
                RestoreStep::RemoveFile
            } else {
                RestoreStep::Nothing
            },
        }
    }
}

/// The file that an action is on.
pub open spec fn action_path(a: ActionView) -> Seq<char> {
    match a {
        ActionView::Write { path, .. } => path,
        ActionView::Remove { path } => path,
    }
}

/// What an action comes to.
pub open spec fn step_of(a: ActionView, exists: bool) -> RestoreStep {
    match a {
        ActionView::Write { .. } => RestoreStep::WriteFile,
        ActionView::Remove { .. } => if exists {
            RestoreStep::RemoveFile
        } else {
            RestoreStep::Nothing
        },
    }
}

/// What to do to bring files back, in order.
#[derive(Debug, Clone)]
pub struct RestorePlan {
    pub actions: Vec<RestoreAction>,
}

impl Default for RestorePlan {
    fn default() -> (p: Self)
        ensures
            action_views(p.actions@) == Seq::<ActionView>::empty(),
    {
        let p = RestorePlan { actions: Vec::new() };
        assert(action_views(p.actions@) =~= Seq::<ActionView>::empty());
        p
    }
}

/// How many files were written and removed.
#[derive(Debug, Clone, Copy, PartialEq, Eq, Structural)]
pub struct ProjectRestoreSummary {
    pub restored_files: usize,
    pub removed_files: usize,
}

impl Default for ProjectRestoreSummary {
    fn default() -> (s: Self)
        ensures
            s == (ProjectRestoreSummary { restored_files: 0, removed_files: 0 }),
    {
        ProjectRestoreSummary { restored_files: 0, removed_files: 0 }
    }
}

/// The number of files that a plan writes.
pub open spec fn writes(actions: Seq<ActionView>) -> nat
    decreases actions.len(),
{
    if actions.len() == 0 {
        0
    } else {
        writes(actions.drop_last()) + (if actions.last() is Write {
            1nat
        } else {
            0nat
        })
    }
}

/// The number of files that a plan removes.
pub open spec fn removals(actions: Seq<ActionView>) -> nat
    decreases actions.len(),
{
    if actions.len() == 0 {
        0
    } else {
        removals(actions.drop_last()) + (if actions.last() is Remove {
            1nat
        } else {
            0nat
        })
    }
}

/// How many of the steps were of one kind.
pub open spec fn steps_like(steps: Seq<RestoreStep>, kind: RestoreStep) -> nat
    decreases steps.len(),
{
    if steps.len() == 0 {
        0
    } else {
        steps_like(steps.drop_last(), kind) + (if steps.last() == kind {
            1nat
        } else {
            0nat
        })
    }
}

impl RestorePlan {
    /// How many files the plan writes and removes.
    pub fn summary(&self) -> (s: ProjectRestoreSummary)
        ensures
            s.restored_files == writes(action_views(self.actions@)),
            s.removed_files == removals(action_views(self.actions@)),
    {
        let ghost all = action_views(self.actions@);
        let mut restored_files: usize = 0;
        let mut removed_files: usize = 0;
        let mut i: usize = 0;
        while i < self.actions.len()
            invariant
                i <= self.actions@.len(),
                all == action_views(self.actions@),
                restored_files + removed_files <= i,
                restored_files == writes(all.take(i as int)),
                removed_files == removals(all.take(i as int)),
            decreases self.actions@.len() - i,
        {
            assert(all.take(i + 1).drop_last() =~= all.take(i as int));
            assert(all.take(i + 1).last() == self.actions@[i as int]@);
            match &self.actions[i] {
                RestoreAction::Write { .. } => {
                    restored_files += 1;
                },
                RestoreAction::Remove { .. } => {
                    removed_files += 1;
                },
            }
            i += 1;
        }
        assert(all.take(i as int) =~= all);
        ProjectRestoreSummary { restored_files, removed_files }
    }
}

/// How many files were written and removed by the given steps.
pub fn tally(steps: &Vec<RestoreStep>) -> (s: ProjectRestoreSummary)
    ensures
        s.restored_files == steps_like(steps@, RestoreStep::WriteFile),
        s.removed_files == steps_like(steps@, RestoreStep::RemoveFile),
{
    let mut restored_files: usize = 0;
    let mut removed_files: usize = 0;
    let mut i: usize = 0;
    while i < steps.len()
        invariant
            i <= steps@.len(),
            restored_files + removed_files <= i,
            restored_files == steps_like(steps@.take(i as int), RestoreStep::WriteFile),
            removed_files == steps_like(steps@.take(i as int), RestoreStep::RemoveFile),
        decreases steps@.len() - i,
    {
        assert(steps@.take(i + 1).drop_last() =~= steps@.take(i as int));
        match steps[i] {
            RestoreStep::WriteFile => {
                restored_files += 1;
            },
            RestoreStep::RemoveFile => {
                removed_files += 1;
            },
            RestoreStep::Nothing => {},
        }
        i += 1;
    }
    assert(steps@.take(i as int) =~= steps@);
    ProjectRestoreSummary { restored_files, removed_files }
}

/// Why a restore cannot be planned.
#[derive(Debug, Clone, Copy, PartialEq, Eq, Structural)]
pub enum RestoreError {
    /// Nothing was ever recorded in the active context.
    NoData,
    /// The file that was asked for is not one of the project's.
    Input(PathError),
    /// The whole path of the file names no file of the project.
    Path(PathError),
    Store(StoreError),
    /// Another context than the active one was asked for.
    CrossContext,
}

/// What an error says to the user who asked for `file`.
pub open spec fn restore_message(e: RestoreError, root: Seq<char>, file: Seq<char>) -> Seq<char> {
    match e {
        RestoreError::NoData => "no timeline data captured yet for the active context"@,
        RestoreError::Input(e) => path_message(e, root, file),
        RestoreError::Path(e) => path_message(e, root, joined_path(root, file)),
        RestoreError::Store(e) => store_message(e),
        RestoreError::CrossContext => "--allow-cross-context is not supported in phase 2 because restore is scoped to the active context"@,
    }
}

impl RestoreError {
    /// What the error says to the user who asked for `file`.
    pub fn message(&self, root: &str, file: &str) -> (m: String)
        ensures
            m@ == restore_message(*self, root@, file@),
    {
        match self {
            RestoreError::NoData => {
                "no timeline data captured yet for the active context".to_owned()
            },
            RestoreError::Input(e) => e.message(root, file),
            RestoreError::Path(e) => e.message(root, join_path(root, file).as_str()),
            RestoreError::Store(e) => e.message(),
            RestoreError::CrossContext => {
                "--allow-cross-context is not supported in phase 2 because restore is scoped to the active context".to_owned()
            },
        }
    }
}

/// The action that brings a file to a state: writing a content, or removing the file
/// where there was none.
pub open spec fn action_for(path: Seq<char>, state: Option<Seq<char>>) -> ActionView {
    match state {
        Some(content) => ActionView::Write { path, content },
        None => ActionView::Remove { path },
    }
}

/// The actions that bring one file back to what it was at a time.
pub open spec fn file_plan(
    t: Tables,
    root: Seq<char>,
    file: Seq<char>,
    at_ms: i64,
    context_id: Option<i64>,
) -> Result<Seq<ActionView>, RestoreError> {
    match context_id {
        None => Err(RestoreError::NoData),
        Some(context_id) => match resolved_input(root, file) {
            Err(e) => Err(RestoreError::Input(e)),
            Ok(whole) => match normalized(root, whole) {
                Err(e) => Err(RestoreError::Path(e)),
                Ok(relative) => match state_at(t, relative, at_ms, context_id) {
                    Err(e) => Err(RestoreError::Store(e)),
                    Ok(state) => Ok(seq![action_for(whole, state)]),
                },
            },
        },
    }
}

/// The actions that bring files back to what they were at a time, one for each path.
pub open spec fn paths_plan(
    t: Tables,
    root: Seq<char>,
    paths: Seq<Seq<char>>,
    at_ms: i64,
    context_id: i64,
) -> Result<Seq<ActionView>, RestoreError>
    decreases paths.len(),
{
    if paths.len() == 0 {
        Ok(Seq::empty())
    } else {
        match paths_plan(t, root, paths.drop_last(), at_ms, context_id) {
            Err(e) => Err(e),
            Ok(before) => match state_at(t, paths.last(), at_ms, context_id) {
                Err(e) => Err(RestoreError::Store(e)),
                Ok(state) => Ok(before.push(action_for(joined_path(root, paths.last()), state))),
            },
        }
    }
}

/// The actions that bring all files of a context back to what they were at a time.
pub open spec fn project_plan(
    t: Tables,
    root: Seq<char>,
    at_ms: i64,
    context_id: Option<i64>,
) -> Result<Seq<ActionView>, RestoreError> {
    match context_id {
        None => Ok(Seq::empty()),
        Some(context_id) => paths_plan(t, root, all_paths(t, context_id), at_ms, context_id),
    }
}

/// The action that brings a file to a state.
fn make_action(path: String, state: Option<String>) -> (a: RestoreAction)
    ensures
        a@ == action_for(path@, opt_text(state)),
{
    match state {
        Some(content) => RestoreAction::Write { path, content },
        None => RestoreAction::Remove { path },
    }
}

/// What to do to bring one file back to what it was at a time.
pub fn plan_restore_file(
    root: &str,
    store: &TimelineStore,
    file: &str,
    at_ms: i64,
    context_id: Option<i64>,
) -> (res: Result<RestorePlan, RestoreError>)
    requires
        store.wf(),
    ensures
        match res {
            Ok(plan) => file_plan(store.tables(), root@, file@, at_ms, context_id) == Ok::<
                Seq<ActionView>,
                RestoreError,
            >(action_views(plan.actions@)),
            Err(e) => file_plan(store.tables(), root@, file@, at_ms, context_id) == Err::<
                Seq<ActionView>,
                RestoreError,
            >(e),
        },
{
    let context_id: i64 = match context_id {
        Some(id) => id,
        None => {
            return Err(RestoreError::NoData);
        },
    };
    let whole = match resolve_input_path(root, file) {
        Ok(path) => path,
        Err(e) => {
            return Err(RestoreError::Input(e));
        },
    };
    let relative = match normalize_relative_path(root, whole.as_str()) {
        Ok(path) => path,
        Err(e) => {
            return Err(RestoreError::Path(e));
        },
    };
    let state = match store.file_state_at(relative.as_str(), at_ms, context_id) {
        Ok(state) => state,
        Err(e) => {
            return Err(RestoreError::Store(e));
        },
    };
    let mut actions: Vec<RestoreAction> = Vec::new();
    let ghost wanted = action_for(whole@, opt_text(state));
    actions.push(make_action(whole, state));
    assert(action_views(actions@) =~= seq![wanted]);
    Ok(RestorePlan { actions })
}

proof fn lemma_paths_plan_fails(
    t: Tables,
    root: Seq<char>,
    paths: Seq<Seq<char>>,
    at_ms: i64,
    context_id: i64,
    n: int,
)
    requires
        0 <= n <= paths.len(),
        paths_plan(t, root, paths.take(n), at_ms, context_id) is Err,
    ensures
        paths_plan(t, root, paths, at_ms, context_id) == paths_plan(
            t,
            root,
            paths.take(n),
            at_ms,
            context_id,
        ),
    decreases paths.len(),
{
    if n == paths.len() {
        assert(paths.take(n) =~= paths);
    } else {
        assert(paths.drop_last().take(n) =~= paths.take(n));
        lemma_paths_plan_fails(t, root, paths.drop_last(), at_ms, context_id, n);
    }
}

/// What to do to bring all files of a context back to what they were at a time.
pub fn plan_restore_project(
    root: &str,
    store: &TimelineStore,
    at_ms: i64,
    context_id: Option<i64>,
) -> (res: Result<RestorePlan, RestoreError>)
    requires
        store.wf(),
    ensures
        match res {
            Ok(plan) => project_plan(store.tables(), root@, at_ms, context_id) == Ok::<
                Seq<ActionView>,
                RestoreError,
            >(action_views(plan.actions@)),
            Err(e) => project_plan(store.tables(), root@, at_ms, context_id) == Err::<
                Seq<ActionView>,
                RestoreError,
            >(e),
        },
{
    let id: i64 = match context_id {
        Some(id) => id,
        None => {
            return Ok(RestorePlan::default());
        },
    };
    let paths = store.list_all_paths(id);
    let ghost all = texts(paths@);
    let ghost t = store.tables();
    let mut actions: Vec<RestoreAction> = Vec::new();
    let mut i: usize = 0;
    assert(action_views(actions@) =~= Seq::<ActionView>::empty());
    while i < paths.len()
        invariant
            i <= paths@.len(),
            store.wf(),
            context_id == Some(id),
            t == store.tables(),
            all == texts(paths@),
            all == all_paths(t, id),
            paths_plan(t, root@, all.take(i as int), at_ms, id) == Ok::<
                Seq<ActionView>,
                RestoreError,
            >(action_views(actions@)),
        decreases paths@.len() - i,
    {
        let ghost before = action_views(actions@);
        proof {
            assert(all.take(i + 1).drop_last() =~= all.take(i as int));
            assert(all.take(i + 1).last() == paths@[i as int]@);
        }
        let whole = join_path(root, paths[i].as_str());
        let state = match store.file_state_at(paths[i].as_str(), at_ms, id) {
            Ok(state) => state,
            Err(e) => {
                proof {
                    lemma_paths_plan_fails(t, root@, all, at_ms, id, i + 1);
                }
                return Err(RestoreError::Store(e));
            },
        };
        let ghost wanted = action_for(whole@, opt_text(state));
        actions.push(make_action(whole, state));
        assert(action_views(actions@) =~= before.push(wanted));
        i += 1;
    }
    assert(all.take(i as int) =~= all);
    Ok(RestorePlan { actions })
}

/// Refuses a request for another context than the active one.
pub fn validate_restore_request(allow_cross_context: bool) -> (res: Result<(), RestoreError>)
    ensures
        allow_cross_context ==> res == Err::<(), RestoreError>(RestoreError::CrossContext),
        !allow_cross_context ==> res == Ok::<(), RestoreError>(()),
{
    if allow_cross_context {
        Err(RestoreError::CrossContext)
    } else {
        Ok(())
    }
}

// ---------------------------------------------------------------------------
// What a plan brings about
// ---------------------------------------------------------------------------

/// A project plan has one action for each tracked path, in their order: it writes what
/// the file held at that time, and removes the file where it was not there.
pub proof fn law_plan_covers_every_path(
    t: Tables,
    root: Seq<char>,
    paths: Seq<Seq<char>>,
    at_ms: i64,
    context_id: i64,
)
    requires
        paths_plan(t, root, paths, at_ms, context_id) is Ok,
    ensures
        ({
            let plan = paths_plan(t, root, paths, at_ms, context_id)->Ok_0;
            &&& plan.len() == paths.len()
            &&& forall|i: int|
                0 <= i < paths.len() ==> {
                    &&& state_at(t, #[trigger] paths[i], at_ms, context_id) is Ok
                    &&& plan[i] == action_for(
                        joined_path(root, paths[i]),
                        state_at(t, paths[i], at_ms, context_id)->Ok_0,
                    )
                }
        }),
    decreases paths.len(),
{
    if paths.len() > 0 {
        let before = paths.drop_last();
        law_plan_covers_every_path(t, root, before, at_ms, context_id);
        let plan = paths_plan(t, root, paths, at_ms, context_id)->Ok_0;
        let shorter = paths_plan(t, root, before, at_ms, context_id)->Ok_0;
        assert forall|i: int| 0 <= i < paths.len() implies {
            &&& state_at(t, #[trigger] paths[i], at_ms, context_id) is Ok
            &&& plan[i] == action_for(
                joined_path(root, paths[i]),
                state_at(t, paths[i], at_ms, context_id)->Ok_0,
            )
        } by {
            if i < before.len() {
                assert(before[i] == paths[i]);
                assert(plan[i] == shorter[i]);
            }
        }
    }
}

/// A plan writes and removes as many files as it has actions.
pub proof fn law_summary_counts_every_action(actions: Seq<ActionView>)
    ensures
        writes(actions) + removals(actions) == actions.len(),
    decreases actions.len(),
{
    if actions.len() > 0 {
        law_summary_counts_every_action(actions.drop_last());
    }
}

/// The steps that actions come to, given which files are there.
pub open spec fn steps_of(actions: Seq<ActionView>, exists: Seq<bool>) -> Seq<RestoreStep> {
    Seq::new(actions.len(), |i: int| step_of(actions[i], exists[i]))
}

/// Carrying out a plan writes all that it says, and removes no more than it says.
pub proof fn law_steps_stay_within_plan(actions: Seq<ActionView>, exists: Seq<bool>)
    requires
        exists.len() == actions.len(),
    ensures
        steps_like(steps_of(actions, exists), RestoreStep::WriteFile) == writes(actions),
        steps_like(steps_of(actions, exists), RestoreStep::RemoveFile) <= removals(actions),
    decreases actions.len(),
{
    let steps = steps_of(actions, exists);
    if actions.len() > 0 {
        law_steps_stay_within_plan(actions.drop_last(), exists.drop_last());
        assert(steps.drop_last() =~= steps_of(actions.drop_last(), exists.drop_last()));
        assert(steps.last() == step_of(actions.last(), exists.last()));
    }
}

/// What files hold, by their whole paths, once actions were carried out one after the
/// other.
pub open spec fn carried_out(
    disk: Map<Seq<char>, Seq<char>>,
    actions: Seq<ActionView>,
) -> Map<Seq<char>, Seq<char>>
    decreases actions.len(),
{
    if actions.len() == 0 {
        disk
    } else {
        let before = carried_out(disk, actions.drop_last());
        match actions.last() {
            ActionView::Write { path, content } => before.insert(path, content),
            ActionView::Remove { path } => before.remove(path),
        }
    }
}

/// Whether a file holds what a state says: a content, or nothing because it is not there.
pub open spec fn holds_state(
    disk: Map<Seq<char>, Seq<char>>,
    path: Seq<char>,
    state: Option<Seq<char>>,
) -> bool {
    match state {
        Some(content) => disk.contains_key(path) && disk[path] == content,
        None => !disk.contains_key(path),
    }
}

proof fn lemma_joined_paths_differ(root: Seq<char>, a: Seq<char>, b: Seq<char>)
    requires
        !is_absolute(a),
        !is_absolute(b),
        joined_path(root, a) == joined_path(root, b),
    ensures
        a == b,
{
    let start = if root.len() == 0 || root.last() == '/' {
        root
    } else {
        root + seq!['/']
    };
    assert(a =~= (start + a).skip(start.len() as int));
    assert(b =~= (start + b).skip(start.len() as int));
}

/// Carrying out a project plan brings every tracked file to what it was at that time: to
/// the content that it held, or away where it was not there. No other file is touched.
/// Tracked paths lie inside the project, so none of them is absolute.
pub proof fn law_restored_project_is_as_it_was(
    t: Tables,
    root: Seq<char>,
    paths: Seq<Seq<char>>,
    at_ms: i64,
    context_id: i64,
    disk: Map<Seq<char>, Seq<char>>,
)
    requires
        paths_plan(t, root, paths, at_ms, context_id) is Ok,
        forall|i: int| 0 <= i < paths.len() ==> !is_absolute(#[trigger] paths[i]),
    ensures
        ({
            let after = carried_out(disk, paths_plan(t, root, paths, at_ms, context_id)->Ok_0);
            &&& forall|i: int|
                0 <= i < paths.len() ==> holds_state(
                    after,
                    joined_path(root, #[trigger] paths[i]),
                    state_at(t, paths[i], at_ms, context_id)->Ok_0,
                )
            &&& forall|other: Seq<char>|
                (forall|i: int|
                    0 <= i < paths.len() ==> joined_path(root, #[trigger] paths[i]) != other) ==> {
                    &&& #[trigger] after.contains_key(other) == disk.contains_key(other)
                    &&& after[other] == disk[other]
                }
        }),
    decreases paths.len(),
{
    let plan = paths_plan(t, root, paths, at_ms, context_id)->Ok_0;
    let after = carried_out(disk, plan);
    if paths.len() > 0 {
        let rest = paths.drop_last();
        let shorter = paths_plan(t, root, rest, at_ms, context_id)->Ok_0;
        assert forall|i: int| 0 <= i < rest.len() implies !is_absolute(#[trigger] rest[i]) by {
            assert(rest[i] == paths[i]);
        }
        law_restored_project_is_as_it_was(t, root, rest, at_ms, context_id, disk);
        assert(plan.drop_last() =~= shorter);
        let before = carried_out(disk, shorter);
        let last = joined_path(root, paths.last());
        assert(paths[paths.len() - 1] == paths.last());
        assert forall|i: int| 0 <= i < paths.len() implies holds_state(
            after,
            joined_path(root, #[trigger] paths[i]),
            state_at(t, paths[i], at_ms, context_id)->Ok_0,
        ) by {
            if joined_path(root, paths[i]) == last {
                lemma_joined_paths_differ(root, paths[i], paths.last());
            } else {
                assert(i < rest.len());
                assert(rest[i] == paths[i]);
            }
        }
        assert forall|other: Seq<char>|
            (forall|i: int|
                0 <= i < paths.len() ==> joined_path(root, #[trigger] paths[i]) != other) implies {
            &&& #[trigger] after.contains_key(other) == disk.contains_key(other)
            &&& after[other] == disk[other]
        } by {
            assert(last != other);
            assert forall|i: int| 0 <= i < rest.len() implies joined_path(
                root,
                #[trigger] rest[i],
            ) != other by {
                assert(rest[i] == paths[i]);
            }
            assert(before.contains_key(other) == disk.contains_key(other));
        }
    }
}

/// Carrying out the plan for one file brings it to what it was at that time, and touches no
/// other.
pub proof fn law_restored_file_is_as_it_was(
    t: Tables,
    root: Seq<char>,
    file: Seq<char>,
    at_ms: i64,
    context_id: i64,
    disk: Map<Seq<char>, Seq<char>>,
    other: Seq<char>,
)
    requires
        file_plan(t, root, file, at_ms, Some(context_id)) is Ok,
    ensures
        ({
            let whole = resolved_input(root, file)->Ok_0;
            let after = carried_out(disk, file_plan(t, root, file, at_ms, Some(context_id))->Ok_0);
            &&& holds_state(
                after,
                whole,
                state_at(t, normalized(root, whole)->Ok_0, at_ms, context_id)->Ok_0,
            )
            &&& other != whole ==> after.contains_key(other) == disk.contains_key(other)
                && after[other] == disk[other]
        }),
{
    let plan = file_plan(t, root, file, at_ms, Some(context_id))->Ok_0;
    assert(plan.drop_last() =~= Seq::<ActionView>::empty());
    assert(carried_out(disk, plan.drop_last()) == disk);
}

/// A project plan has one action for each tracked path of the context, strictly in the order
/// of the paths; without a context it has none.
pub proof fn law_project_plan_ascends(
    t: Tables,
    root: Seq<char>,
    at_ms: i64,
    context_id: Option<i64>,
)
    requires
        t.wf(),
        project_plan(t, root, at_ms, context_id) is Ok,
    ensures
        ({
            let plan = project_plan(t, root, at_ms, context_id)->Ok_0;
            match context_id {
                None => plan.len() == 0,
                Some(id) => {
                    let paths = all_paths(t, id);
                    &&& plan.len() == paths.len()
                    &&& forall|i: int, j: int|
                        0 <= i < j < paths.len() ==> text_before(
                            #[trigger] paths[i],
                            #[trigger] paths[j],
                        )
                    &&& forall|i: int|
                        0 <= i < paths.len() ==> {
                            &&& state_at(t, #[trigger] paths[i], at_ms, id) is Ok
                            &&& plan[i] == action_for(
                                joined_path(root, paths[i]),
                                state_at(t, paths[i], at_ms, id)->Ok_0,
                            )
                        }
                },
            }
        }),
{
    if context_id is Some {
        let id = context_id->Some_0;
        law_plan_covers_every_path(t, root, all_paths(t, id), at_ms, id);
        law_tracked_paths_ascend(t, id);
    }
}

// ---------------------------------------------------------------------------
// Any plan
// ---------------------------------------------------------------------------

/// Whether no two actions are on the same file.
pub open spec fn acts_once(actions: Seq<ActionView>) -> bool {
    forall|i: int, j: int|
        0 <= i < j < actions.len() ==> action_path(#[trigger] actions[i]) != action_path(
            #[trigger] actions[j],
        )
}

/// For each action, whether its file is there.
pub open spec fn there(disk: Map<Seq<char>, Seq<char>>, actions: Seq<ActionView>) -> Seq<bool> {
    Seq::new(actions.len(), |i: int| disk.contains_key(action_path(actions[i])))
}

/// Whether an action has been carried out: a written file holds its content, a removed one
/// is not there.
pub open spec fn is_done(disk: Map<Seq<char>, Seq<char>>, a: ActionView) -> bool {
    match a {
        ActionView::Write { path, content } => holds_state(disk, path, Some(content)),
        ActionView::Remove { path } => holds_state(disk, path, None),
    }
}

/// Carrying out a plan that acts on each file once does all that it says: each written file
/// holds its content, each removed one is gone, and every other file is as it was. What is
/// there when an action's turn comes is what was there before.
pub proof fn law_plan_does_what_it_says(
    disk: Map<Seq<char>, Seq<char>>,
    actions: Seq<ActionView>,
)
    requires
        acts_once(actions),
    ensures
        forall|i: int|
            0 <= i < actions.len() ==> is_done(carried_out(disk, actions), #[trigger] actions[i]),
        forall|other: Seq<char>|
            (forall|i: int| 0 <= i < actions.len() ==> action_path(#[trigger] actions[i]) != other)
                ==> {
                &&& #[trigger] carried_out(disk, actions).contains_key(other)
                    == disk.contains_key(other)
                &&& carried_out(disk, actions)[other] == disk[other]
            },
        forall|i: int|
            0 <= i < actions.len() ==> carried_out(disk, actions.take(i)).contains_key(
                action_path(#[trigger] actions[i]),
            ) == disk.contains_key(action_path(actions[i])),
    decreases actions.len(),
{
    if actions.len() > 0 {
        let front = actions.drop_last();
        let last = actions.last();
        assert(actions[actions.len() - 1] == last);
        assert forall|i: int, j: int| 0 <= i < j < front.len() implies action_path(
            #[trigger] front[i],
        ) != action_path(#[trigger] front[j]) by {
            assert(front[i] == actions[i] && front[j] == actions[j]);
        }
        law_plan_does_what_it_says(disk, front);
        let before = carried_out(disk, front);
        let after = carried_out(disk, actions);
        assert forall|i: int| 0 <= i < actions.len() implies is_done(
            after,
            #[trigger] actions[i],
        ) by {
            if i < front.len() {
                assert(front[i] == actions[i]);
                assert(action_path(actions[i]) != action_path(last));
            }
        }
        assert forall|other: Seq<char>|
            (forall|i: int|
                0 <= i < actions.len() ==> action_path(#[trigger] actions[i]) != other) implies {
            &&& #[trigger] after.contains_key(other) == disk.contains_key(other)
            &&& after[other] == disk[other]
        } by {
            assert forall|i: int| 0 <= i < front.len() implies action_path(#[trigger] front[i])
                != other by {
                assert(front[i] == actions[i]);
            }
            assert(before.contains_key(other) == disk.contains_key(other));
        }
        assert forall|i: int| 0 <= i < actions.len() implies carried_out(
            disk,
            actions.take(i),
        ).contains_key(action_path(#[trigger] actions[i])) == disk.contains_key(
            action_path(actions[i]),
        ) by {
            if i < front.len() {
                assert(front[i] == actions[i]);
                assert(front.take(i) =~= actions.take(i));
            } else {
                assert(actions.take(i) =~= front);
                assert forall|k: int| 0 <= k < front.len() implies action_path(
                    #[trigger] front[k],
                ) != action_path(last) by {
                    assert(front[k] == actions[k]);
                }
                assert(before.contains_key(action_path(last)) == disk.contains_key(
                    action_path(last),
                ));
            }
        }
    }
}

/// How many of the files that a plan removes are there.
pub open spec fn removable(disk: Map<Seq<char>, Seq<char>>, actions: Seq<ActionView>) -> nat
    decreases actions.len(),
{
    if actions.len() == 0 {
        0
    } else {
        removable(disk, actions.drop_last()) + (if actions.last() is Remove
            && disk.contains_key(action_path(actions.last())) {
            1nat
        } else {
            0nat
        })
    }
}

/// The counts of a plan that was carried out: all files that it writes, and those of the
/// files that it removes that were there.
pub proof fn law_tally_counts_what_was_there(
    disk: Map<Seq<char>, Seq<char>>,
    actions: Seq<ActionView>,
)
    ensures
        steps_like(steps_of(actions, there(disk, actions)), RestoreStep::WriteFile) == writes(
            actions,
        ),
        steps_like(steps_of(actions, there(disk, actions)), RestoreStep::RemoveFile) == removable(
            disk,
            actions,
        ),
    decreases actions.len(),
{
    let steps = steps_of(actions, there(disk, actions));
    if actions.len() > 0 {
        let front = actions.drop_last();
        law_tally_counts_what_was_there(disk, front);
        assert(steps.drop_last() =~= steps_of(front, there(disk, front)));
        assert(steps.last() == step_of(
            actions.last(),
            disk.contains_key(action_path(actions.last())),
        ));
    }
}

proof fn lemma_nothing_removable(disk: Map<Seq<char>, Seq<char>>, actions: Seq<ActionView>)
    requires
        forall|i: int| 0 <= i < actions.len() ==> is_done(disk, #[trigger] actions[i]),
    ensures
        removable(disk, actions) == 0,
        carried_out(disk, actions) == disk,
    decreases actions.len(),
{
    if actions.len() > 0 {
        let front = actions.drop_last();
        assert forall|i: int| 0 <= i < front.len() implies is_done(disk, #[trigger] front[i]) by {
            assert(front[i] == actions[i]);
        }
        lemma_nothing_removable(disk, front);
        assert(is_done(disk, actions[actions.len() - 1]));
        assert(carried_out(disk, actions) =~= disk);
    }
}

/// Carrying out the same plan a second time leaves all files as they are, writes as many and
/// removes none.
pub proof fn law_second_restore_changes_nothing(
    disk: Map<Seq<char>, Seq<char>>,
    actions: Seq<ActionView>,
)
    requires
        acts_once(actions),
    ensures
        ({
            let after = carried_out(disk, actions);
            let steps = steps_of(actions, there(after, actions));
            &&& carried_out(after, actions) == after
            &&& steps_like(steps, RestoreStep::WriteFile) == writes(actions)
            &&& steps_like(steps, RestoreStep::RemoveFile) == 0
        }),
{
    let after = carried_out(disk, actions);
    law_plan_does_what_it_says(disk, actions);
    lemma_nothing_removable(after, actions);
    law_tally_counts_what_was_there(after, actions);
}

} // verus!
