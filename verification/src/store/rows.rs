//! The rows of a timeline: contexts, tracked files, revisions and the watcher's slot,
//! each with its mathematical view.
use vstd::prelude::*;
use vstd::string::*;

use crate::git::{
    git_fingerprint,
    local_fingerprint,
    ContextKind,
    GitContext,
    GitContextView,
    RuntimeContext,
};
use crate::text::{concat, opt_text, same_text};

verus! {

/// What a revision records of a file.
#[derive(Debug, Clone, Copy, PartialEq, Eq, Structural)]
pub enum EventType {
    Create,
    Modify,
    Delete,
}

/// How a revision holds its content.
#[derive(Debug, Clone, Copy, PartialEq, Eq, Structural)]
pub enum StorageKind {
    Full,
    Patch,
    /// No content at all, as for a deletion.
    Absent,
}

/// A stored name that stands for nothing.
#[derive(Debug, Clone)]
pub enum UnknownName {
    Event(String),
    Storage(String),
}

impl UnknownName {
    /// What the error says to the user.
    pub fn message(&self) -> (m: String)
        ensures
            m@ == (match *self {
                UnknownName::Event(name) => "unknown event type `"@ + name@ + "`"@,
                UnknownName::Storage(name) => "unknown storage kind `"@ + name@ + "`"@,
            }),
    {
        match self {
            UnknownName::Event(name) => {
                let s = concat("unknown event type `", name.as_str());
                concat(s.as_str(), "`")
            },
            UnknownName::Storage(name) => {
                let s = concat("unknown storage kind `", name.as_str());
                concat(s.as_str(), "`")
            },
        }
    }
}

impl EventType {
    /// The name under which an event is stored and shown.
    pub open spec fn name(self) -> Seq<char> {
        match self {
            EventType::Create => "create"@,
            EventType::Modify => "modify"@,
            EventType::Delete => "delete"@,
        }
    }

    /// The name under which the event is stored and shown.
    pub fn as_str(self) -> (s: &'static str)
        ensures
            s@ == self.name(),
    {
        match self {
            EventType::Create => "create",
            EventType::Modify => "modify",
            EventType::Delete => "delete",
        }
    }

    /// The event that a stored name stands for.
    pub fn from_str(value: &str) -> (res: Result<EventType, UnknownName>)
        ensures
            match res {
                Ok(event) => value@ == event.name(),
                Err(e) => {
                    &&& forall|event: EventType| value@ != event.name()
                    &&& e matches UnknownName::Event(name)
                    &&& name@ == value@
                },
            },
    {
        if same_text(value, "create") {
            Ok(EventType::Create)
        } else if same_text(value, "modify") {
            Ok(EventType::Modify)
        } else if same_text(value, "delete") {
            Ok(EventType::Delete)
        } else {
            Err(UnknownName::Event(value.to_owned()))
        }
    }
}

impl StorageKind {
    /// The name under which a storage kind is stored and shown.
    pub open spec fn name(self) -> Seq<char> {
        match self {
            StorageKind::Full => "full"@,
            StorageKind::Patch => "patch"@,
            StorageKind::Absent => "none"@,
        }
    }

    /// The name under which the storage kind is stored and shown.
    pub fn as_str(self) -> (s: &'static str)
        ensures
            s@ == self.name(),
    {
        match self {
            StorageKind::Full => "full",
            StorageKind::Patch => "patch",
            StorageKind::Absent => "none",
        }
    }

    /// The storage kind that a stored name stands for.
    pub fn from_str(value: &str) -> (res: Result<StorageKind, UnknownName>)
        ensures
            match res {
                Ok(kind) => value@ == kind.name(),
                Err(e) => {
                    &&& forall|kind: StorageKind| value@ != kind.name()
                    &&& e matches UnknownName::Storage(name)
                    &&& name@ == value@
                },
            },
    {
        if same_text(value, "full") {
            Ok(StorageKind::Full)
        } else if same_text(value, "patch") {
            Ok(StorageKind::Patch)
        } else if same_text(value, "none") {
            Ok(StorageKind::Absent)
        } else {
            Err(UnknownName::Storage(value.to_owned()))
        }
    }
}

/// No two events share a name, so a stored name gives back the event it was written
/// for.
pub proof fn law_event_names_are_distinct(a: EventType, b: EventType)
    ensures
        a.name() == b.name() ==> a == b,
{
    reveal_strlit("create");
    reveal_strlit("modify");
    reveal_strlit("delete");
    assert("create"@[0] != "modify"@[0]);
    assert("create"@[0] != "delete"@[0]);
    assert("modify"@[0] != "delete"@[0]);
}

/// No two storage kinds share a name.
pub proof fn law_storage_names_are_distinct(a: StorageKind, b: StorageKind)
    ensures
        a.name() == b.name() ==> a == b,
{
    reveal_strlit("full");
    reveal_strlit("patch");
    reveal_strlit("none");
    assert("full"@[0] != "patch"@[0]);
    assert("full"@[0] != "none"@[0]);
    assert("patch"@[0] != "none"@[0]);
}

/// What identifies a context, before it has a row.
#[derive(Debug, Clone)]
pub struct ContextRecord {
    pub kind: ContextKind,
    pub fingerprint: String,
    pub worktree_root: Option<String>,
    pub common_git_dir: Option<String>,
    pub branch_name: Option<String>,
    pub head_commit: Option<String>,
    pub detached_head: bool,
}

/// The view of a [`ContextRecord`].
pub struct RecordView {
    pub kind: ContextKind,
    pub fingerprint: Seq<char>,
    pub worktree_root: Option<Seq<char>>,
    pub common_git_dir: Option<Seq<char>>,
    pub branch_name: Option<Seq<char>>,
    pub head_commit: Option<Seq<char>>,
    pub detached_head: bool,
}

impl View for ContextRecord {
    type V = RecordView;

    open spec fn view(&self) -> RecordView {
        RecordView {
            kind: self.kind,
            fingerprint: self.fingerprint@,
            worktree_root: opt_text(self.worktree_root),
            common_git_dir: opt_text(self.common_git_dir),
            branch_name: opt_text(self.branch_name),
            head_commit: opt_text(self.head_commit),
            detached_head: self.detached_head,
        }
    }
}

/// The record of a Git context.
pub open spec fn git_record(git: GitContextView) -> RecordView {
    RecordView {
        kind: ContextKind::Git,
        fingerprint: git_fingerprint(git),
        worktree_root: Some(git.worktree_root),
        common_git_dir: Some(git.common_git_dir),
        branch_name: git.branch_name,
        head_commit: git.head_commit,
        detached_head: git.detached_head,
    }
}

/// The record of a project outside Git.
pub open spec fn local_record(project_root: Seq<char>) -> RecordView {
    RecordView {
        kind: ContextKind::Local,
        fingerprint: local_fingerprint(project_root),
        worktree_root: None,
        common_git_dir: None,
        branch_name: None,
        head_commit: None,
        detached_head: false,
    }
}

/// The record of a project, inside Git or outside.
pub open spec fn record_of(project_root: Seq<char>, git: Option<GitContextView>) -> RecordView {
    match git {
        Some(context) => git_record(context),
        None => local_record(project_root),
    }
}

impl ContextRecord {
    /// The record of the context that is active now.
    pub fn from_runtime(context: &RuntimeContext) -> (r: Self)
        ensures
            r@ == record_of(context@.project_root, context@.git),
    {
        match context.git() {
            Some(git) => Self::from_git(git),
            None => Self::local(context.project_root()),
        }
    }

    /// The record of the context that an old revision row names.
    pub fn from_legacy(project_root: &str, git_context: Option<&GitContext>) -> (r: Self)
        ensures
            r@ == record_of(
                project_root@,
                match git_context {
                    Some(git) => Some(git@),
                    None => None,
                },
            ),
    {
        match git_context {
            Some(git) => Self::from_git(git),
            None => Self::local(project_root),
        }
    }

    /// The record of a Git context.
    pub fn from_git(context: &GitContext) -> (r: Self)
        ensures
            r@ == git_record(context@),
    {
        ContextRecord {
            kind: ContextKind::Git,
            fingerprint: context.fingerprint(),
            worktree_root: Some(context.worktree_root.clone()),
            common_git_dir: Some(context.common_git_dir.clone()),
            branch_name: context.branch_name.clone(),
            head_commit: context.head_commit.clone(),
            detached_head: context.detached_head,
        }
    }

    /// The record of a project outside Git.
    pub fn local(project_root: &str) -> (r: Self)
        ensures
            r@ == local_record(project_root@),
    {
        ContextRecord {
            kind: ContextKind::Local,
            fingerprint: concat("local|root=", project_root),
            worktree_root: None,
            common_git_dir: None,
            branch_name: None,
            head_commit: None,
            detached_head: false,
        }
    }

    /// The name under which the kind of the context is stored.
    pub fn kind_str(&self) -> (s: &'static str)
        ensures
            s@ == (match self.kind {
                ContextKind::Local => "local"@,
                ContextKind::Git => "git"@,
            }),
    {
        match self.kind {
            ContextKind::Local => "local",
            ContextKind::Git => "git",
        }
    }
}

/// A context with its row number and the times at which it was seen.
#[derive(Debug, Clone)]
pub struct ContextRow {
    pub id: i64,
    pub record: ContextRecord,
    pub first_seen_ms: i64,
    pub last_seen_ms: i64,
}

/// The view of a [`ContextRow`].
pub struct ContextView {
    pub id: i64,
    pub record: RecordView,
    pub first_seen_ms: i64,
    pub last_seen_ms: i64,
}

impl View for ContextRow {
    type V = ContextView;

    open spec fn view(&self) -> ContextView {
        ContextView {
            id: self.id,
            record: self.record@,
            first_seen_ms: self.first_seen_ms,
            last_seen_ms: self.last_seen_ms,
        }
    }
}

/// A tracked file of a context.
#[derive(Debug, Clone)]
pub struct FileRow {
    pub id: i64,
    pub context_id: i64,
    pub path: String,
    pub first_seen_ms: i64,
    pub last_seen_ms: i64,
}

/// The view of a [`FileRow`].
pub struct FileView {
    pub id: i64,
    pub context_id: i64,
    pub path: Seq<char>,
    pub first_seen_ms: i64,
    pub last_seen_ms: i64,
}

impl View for FileRow {
    type V = FileView;

    open spec fn view(&self) -> FileView {
        FileView {
            id: self.id,
            context_id: self.context_id,
            path: self.path@,
            first_seen_ms: self.first_seen_ms,
            last_seen_ms: self.last_seen_ms,
        }
    }
}

/// One recorded state of a tracked file.
#[derive(Debug, Clone)]
pub struct RevisionRow {
    pub id: i64,
    pub file_id: i64,
    pub ordinal: i64,
    pub recorded_at_ms: i64,
    pub event_type: EventType,
    pub storage_kind: StorageKind,
    pub base_revision_id: Option<i64>,
    pub content_hash: Option<String>,
    pub size_bytes: Option<i64>,
    pub payload: Option<Vec<u8>>,
}

/// The view of a [`RevisionRow`].
pub struct RevisionView {
    pub id: i64,
    pub file_id: i64,
    pub ordinal: i64,
    pub recorded_at_ms: i64,
    pub event_type: EventType,
    pub storage_kind: StorageKind,
    pub base_revision_id: Option<i64>,
    pub content_hash: Option<Seq<char>>,
    pub size_bytes: Option<i64>,
    pub payload: Option<Seq<u8>>,
}

/// The view of an optional payload.
pub open spec fn opt_bytes(o: Option<Vec<u8>>) -> Option<Seq<u8>> {
    match o {
        Some(v) => Some(v@),
        None => None,
    }
}

impl View for RevisionRow {
    type V = RevisionView;

    open spec fn view(&self) -> RevisionView {
        RevisionView {
            id: self.id,
            file_id: self.file_id,
            ordinal: self.ordinal,
            recorded_at_ms: self.recorded_at_ms,
            event_type: self.event_type,
            storage_kind: self.storage_kind,
            base_revision_id: self.base_revision_id,
            content_hash: opt_text(self.content_hash),
            size_bytes: self.size_bytes,
            payload: opt_bytes(self.payload),
        }
    }
}

/// A copy of an optional payload.
pub fn copy_payload(o: &Option<Vec<u8>>) -> (res: Option<Vec<u8>>)
    ensures
        opt_bytes(res) == opt_bytes(*o),
{
    match o {
        Some(v) => {
            let copy = vstd::slice::slice_to_vec(v.as_slice());
            Some(copy)
        },
        None => None,
    }
}

/// A copy of a revision row.
pub fn copy_revision(r: &RevisionRow) -> (res: RevisionRow)
    ensures
        res@ == r@,
{
    RevisionRow {
        id: r.id,
        file_id: r.file_id,
        ordinal: r.ordinal,
        recorded_at_ms: r.recorded_at_ms,
        event_type: r.event_type,
        storage_kind: r.storage_kind,
        base_revision_id: r.base_revision_id,
        content_hash: r.content_hash.clone(),
        size_bytes: r.size_bytes,
        payload: copy_payload(&r.payload),
    }
}

/// A copy of a context record.
pub fn copy_record(r: &ContextRecord) -> (res: ContextRecord)
    ensures
        res@ == r@,
{
    ContextRecord {
        kind: r.kind,
        fingerprint: r.fingerprint.clone(),
        worktree_root: r.worktree_root.clone(),
        common_git_dir: r.common_git_dir.clone(),
        branch_name: r.branch_name.clone(),
        head_commit: r.head_commit.clone(),
        detached_head: r.detached_head,
    }
}

/// The watcher that runs on the project, or ran last.
#[derive(Debug, Clone)]
pub struct WatcherRow {
    pub pid: i64,
    pub root_path: String,
    pub started_at_ms: i64,
    pub heartbeat_ms: i64,
}

/// The view of a [`WatcherRow`].
pub struct WatcherView {
    pub pid: i64,
    pub root_path: Seq<char>,
    pub started_at_ms: i64,
    pub heartbeat_ms: i64,
}

impl View for WatcherRow {
    type V = WatcherView;

    open spec fn view(&self) -> WatcherView {
        WatcherView {
            pid: self.pid,
            root_path: self.root_path@,
            started_at_ms: self.started_at_ms,
            heartbeat_ms: self.heartbeat_ms,
        }
    }
}

/// The view of the watcher's slot.
pub open spec fn opt_watcher(o: Option<WatcherRow>) -> Option<WatcherView> {
    match o {
        Some(w) => Some(w@),
        None => None,
    }
}

/// One change to a row.
#[derive(Debug, Clone)]
pub enum RowChange {
    InsertContext(ContextRow),
    UpdateContext(ContextRow),
    /// The next number for a context is passed over.
    SkipContextNumber,
    InsertFile(FileRow),
    UpdateFile(FileRow),
    /// The next number for a file is passed over.
    SkipFileNumber,
    InsertRevision(RevisionRow),
    UpdateRevision(RevisionRow),
    DeleteRevision(i64),
    SetWatcher(WatcherRow),
}

/// The view of a [`RowChange`].
pub enum ChangeView {
    InsertContext(ContextView),
    UpdateContext(ContextView),
    SkipContextNumber,
    InsertFile(FileView),
    UpdateFile(FileView),
    SkipFileNumber,
    InsertRevision(RevisionView),
    UpdateRevision(RevisionView),
    DeleteRevision(i64),
    SetWatcher(WatcherView),
}

impl View for RowChange {
    type V = ChangeView;

    open spec fn view(&self) -> ChangeView {
        match *self {
            RowChange::InsertContext(r) => ChangeView::InsertContext(r@),
            RowChange::UpdateContext(r) => ChangeView::UpdateContext(r@),
            RowChange::SkipContextNumber => ChangeView::SkipContextNumber,
            RowChange::InsertFile(r) => ChangeView::InsertFile(r@),
            RowChange::UpdateFile(r) => ChangeView::UpdateFile(r@),
            RowChange::SkipFileNumber => ChangeView::SkipFileNumber,
            RowChange::InsertRevision(r) => ChangeView::InsertRevision(r@),
            RowChange::UpdateRevision(r) => ChangeView::UpdateRevision(r@),
            RowChange::DeleteRevision(id) => ChangeView::DeleteRevision(id),
            RowChange::SetWatcher(w) => ChangeView::SetWatcher(w@),
        }
    }
}

/// The views of context rows.
pub open spec fn context_views(rows: Seq<ContextRow>) -> Seq<ContextView> {
    rows.map_values(|r: ContextRow| r@)
}

/// The views of file rows.
pub open spec fn file_views(rows: Seq<FileRow>) -> Seq<FileView> {
    rows.map_values(|r: FileRow| r@)
}

/// The views of revision rows.
pub open spec fn revision_views(rows: Seq<RevisionRow>) -> Seq<RevisionView> {
    rows.map_values(|r: RevisionRow| r@)
}

/// The views of row changes.
pub open spec fn change_views(rows: Seq<RowChange>) -> Seq<ChangeView> {
    rows.map_values(|r: RowChange| r@)
}

} // verus!
