//! Bringing timelines of earlier layouts up to date. The first layout knew no contexts:
//! a revision carried the Git state at which it was recorded, and patches ran on from
//! one revision of a file to the next.
use vstd::prelude::*;
use vstd::slice::*;
use vstd::string::*;
use vstd::utf8::*;

use crate::config::TimelineConfig;
use crate::delta::{apply_patch, patch_outcome};
use crate::git::{GitContext, GitContextView};
use crate::store::record::{
    hash_text,
    sha256_hex,
    with_context,
    with_file,
    with_revision,
};
use crate::store::retention::lemma_one_full;
use crate::store::rows::{
    opt_bytes,
    opt_watcher,
    record_of,
    ContextRecord,
    EventType,
    RecordView,
    RevisionRow,
    RevisionView,
    StorageKind,
    WatcherRow,
    WatcherView,
};
use crate::store::sound::{reads_back, sound};
use crate::store::tables::{
    has_file,
    StoreError,
    StoredRows,
    Tables,
    TimelineStore,
};
use crate::text::{
    byte_len,
    opt_text,
    same_text,
    size_of_text,
    text_before,
    text_from_utf8,
    text_is_before,
    texts,
};

verus! {

// ---------------------------------------------------------------------------
// Layouts
// ---------------------------------------------------------------------------

/// What has to be done to the tables that were found.
#[derive(Debug, Clone, Copy, PartialEq, Eq, Structural)]
pub enum SchemaPlan {
    /// There is nothing yet: create the current layout.
    Create,
    /// The first layout without Git columns: add them, then migrate.
    AddColumnsAndMigrate,
    /// The first layout: migrate.
    Migrate,
    /// The current layout: add what is missing beside the rows.
    Support,
}

/// What has to be done to the tables that were found.
pub open spec fn planned_schema(
    user_version: i64,
    has_legacy_files: bool,
    has_contexts: bool,
    has_tracked_files: bool,
    has_revisions: bool,
) -> Result<SchemaPlan, StoreError> {
    if user_version == 0 && !has_legacy_files && !has_contexts && !has_tracked_files
        && !has_revisions {
        Ok(SchemaPlan::Create)
    } else if user_version == 0 && has_legacy_files {
        Ok(SchemaPlan::AddColumnsAndMigrate)
    } else if user_version == 1 {
        Ok(SchemaPlan::Migrate)
    } else if user_version == 2 {
        Ok(SchemaPlan::Support)
    } else {
        Err(StoreError::UnsupportedVersion(user_version))
    }
}

/// What has to be done to the tables that were found.
pub fn plan_schema(
    user_version: i64,
    has_legacy_files: bool,
    has_contexts: bool,
    has_tracked_files: bool,
    has_revisions: bool,
) -> (res: Result<SchemaPlan, StoreError>)
    ensures
        res == planned_schema(
            user_version,
            has_legacy_files,
            has_contexts,
            has_tracked_files,
            has_revisions,
        ),
{
    if user_version == 0 && !has_legacy_files && !has_contexts && !has_tracked_files
        && !has_revisions {
        return Ok(SchemaPlan::Create);
    }
    if user_version == 0 && has_legacy_files {
        return Ok(SchemaPlan::AddColumnsAndMigrate);
    }
    if user_version == 1 {
        Ok(SchemaPlan::Migrate)
    } else if user_version == 2 {
        Ok(SchemaPlan::Support)
    } else {
        Err(StoreError::UnsupportedVersion(user_version))
    }
}

/// The columns that hold the Git state of a revision in the first layout.
pub open spec fn git_columns() -> Seq<Seq<char>> {
    seq![
        "git_worktree_root"@,
        "git_common_dir"@,
        "git_branch_name"@,
        "git_head_commit"@,
        "git_detached_head"@,
    ]
}

/// Those of the given names that are not among the columns.
pub open spec fn missing_from(names: Seq<Seq<char>>, columns: Seq<Seq<char>>) -> Seq<Seq<char>>
    decreases names.len(),
{
    if names.len() == 0 {
        Seq::empty()
    } else if columns.contains(names.last()) {
        missing_from(names.drop_last(), columns)
    } else {
        missing_from(names.drop_last(), columns).push(names.last())
    }
}

fn holds_name(columns: &Vec<String>, name: &str) -> (r: bool)
    ensures
        r == texts(columns@).contains(name@),
{
    let mut i: usize = 0;
    while i < columns.len()
        invariant
            i <= columns@.len(),
            forall|j: int| 0 <= j < i ==> (#[trigger] columns@[j])@ != name@,
        decreases columns@.len() - i,
    {
        if same_text(columns[i].as_str(), name) {
            assert(texts(columns@)[i as int] == name@);
            return true;
        }
        i += 1;
    }
    proof {
        assert forall|j: int| 0 <= j < columns@.len() implies #[trigger] texts(columns@)[j]
            != name@ by {
            assert(columns@[j]@ != name@);
        }
    }
    false
}

/// The Git columns that a table of the first layout lacks, in the order in which they
/// are added.
pub fn missing_git_columns(columns: &Vec<String>) -> (res: Vec<String>)
    ensures
        texts(res@) == missing_from(git_columns(), texts(columns@)),
{
    let mut names: Vec<String> = Vec::new();
    names.push("git_worktree_root".to_owned());
    names.push("git_common_dir".to_owned());
    names.push("git_branch_name".to_owned());
    names.push("git_head_commit".to_owned());
    names.push("git_detached_head".to_owned());
    let ghost all = git_columns();
    assert(texts(names@) =~= all);
    let mut res: Vec<String> = Vec::new();
    let mut i: usize = 0;
    assert(texts(res@) =~= missing_from(all.take(0), texts(columns@)));
    while i < names.len()
        invariant
            i <= names@.len(),
            all == texts(names@),
            texts(res@) == missing_from(all.take(i as int), texts(columns@)),
        decreases names@.len() - i,
    {
        let ghost before = texts(res@);
        assert(all.take(i + 1).drop_last() =~= all.take(i as int));
        assert(all.take(i + 1).last() == names@[i as int]@);
        if !holds_name(columns, names[i].as_str()) {
            res.push(names[i].clone());
            assert(texts(res@) =~= before.push(names@[i as int]@));
        }
        i += 1;
    }
    assert(all.take(i as int) =~= all);
    res
}

/// What is wrong with a database whose quick check answered this; nothing where it
/// answered `ok`.
pub fn integrity_failure(answer: &str) -> (res: Option<String>)
    ensures
        match res {
            None => answer@ == "ok"@,
            Some(message) => {
                &&& answer@ != "ok"@
                &&& message@
                    == "timeline metadata appears corrupted: sqlite quick_check returned `"@ + answer@
                    + "`"@
            },
        },
{
    if same_text(answer, "ok") {
        None
    } else {
        let mut message =
            "timeline metadata appears corrupted: sqlite quick_check returned `".to_owned();
        message.append(answer);
        message.append("`");
        Some(message)
    }
}

// ---------------------------------------------------------------------------
// Rows of the first layout
// ---------------------------------------------------------------------------

/// A file of the first layout.
#[derive(Debug, Clone)]
pub struct LegacyFileRow {
    pub id: i64,
    pub path: String,
}

/// The view of a [`LegacyFileRow`].
pub struct LegacyFileView {
    pub id: i64,
    pub path: Seq<char>,
}

impl View for LegacyFileRow {
    type V = LegacyFileView;

    open spec fn view(&self) -> LegacyFileView {
        LegacyFileView { id: self.id, path: self.path@ }
    }
}

/// A revision of the first layout.
#[derive(Debug, Clone)]
pub struct LegacyRevisionRow {
    pub id: i64,
    pub file_id: i64,
    pub recorded_at_ms: i64,
    pub event_type: EventType,
    pub storage_kind: StorageKind,
    pub payload: Option<Vec<u8>>,
    pub git_context: Option<GitContext>,
}

/// The view of a [`LegacyRevisionRow`].
pub struct LegacyRevisionView {
    pub id: i64,
    pub file_id: i64,
    pub recorded_at_ms: i64,
    pub event_type: EventType,
    pub storage_kind: StorageKind,
    pub payload: Option<Seq<u8>>,
    pub git_context: Option<GitContextView>,
}

/// The view of an optional Git state.
pub open spec fn opt_git(o: Option<GitContext>) -> Option<GitContextView> {
    match o {
        Some(git) => Some(git@),
        None => None,
    }
}

impl View for LegacyRevisionRow {
    type V = LegacyRevisionView;

    open spec fn view(&self) -> LegacyRevisionView {
        LegacyRevisionView {
            id: self.id,
            file_id: self.file_id,
            recorded_at_ms: self.recorded_at_ms,
            event_type: self.event_type,
            storage_kind: self.storage_kind,
            payload: opt_bytes(self.payload),
            git_context: opt_git(self.git_context),
        }
    }
}

/// The views of legacy files.
pub open spec fn legacy_file_views(v: Seq<LegacyFileRow>) -> Seq<LegacyFileView> {
    v.map_values(|f: LegacyFileRow| f@)
}

/// The views of legacy revisions.
pub open spec fn legacy_revision_views(v: Seq<LegacyRevisionRow>) -> Seq<LegacyRevisionView> {
    v.map_values(|r: LegacyRevisionRow| r@)
}

/// The Git context that the columns of a legacy row tell of: none where the worktree or the
/// common directory is missing.
pub open spec fn legacy_git_context(
    worktree_root: Option<Seq<char>>,
    common_git_dir: Option<Seq<char>>,
    branch_name: Option<Seq<char>>,
    head_commit: Option<Seq<char>>,
    detached_head: i64,
) -> Option<GitContextView> {
    match (worktree_root, common_git_dir) {
        (Some(worktree_root), Some(common_git_dir)) => Some(
            GitContextView {
                worktree_root,
                common_git_dir,
                branch_name,
                head_commit,
                detached_head: detached_head != 0,
            },
        ),
        _ => None,
    }
}

/// The Git state that the columns of a legacy row hold: none unless both directories are
/// there.
pub fn legacy_row_to_git_context(
    worktree_root: Option<String>,
    common_git_dir: Option<String>,
    branch_name: Option<String>,
    head_commit: Option<String>,
    detached_head: i64,
) -> (res: Option<GitContext>)
    ensures
        opt_git(res) == legacy_git_context(
            opt_text(worktree_root),
            opt_text(common_git_dir),
            opt_text(branch_name),
            opt_text(head_commit),
            detached_head,
        ),
{
    match (worktree_root, common_git_dir) {
        (Some(worktree_root), Some(common_git_dir)) => Some(
            GitContext {
                worktree_root,
                common_git_dir,
                branch_name,
                head_commit,
                detached_head: detached_head != 0,
            },
        ),
        _ => None,
    }
}

/// Files in the order of their paths, with one more put in its place.
pub open spec fn file_placed(sorted: Seq<LegacyFileView>, f: LegacyFileView) -> Seq<LegacyFileView>
    decreases sorted.len(),
{
    if sorted.len() > 0 && text_before(f.path, sorted.last().path) {
        file_placed(sorted.drop_last(), f).push(sorted.last())
    } else {
        sorted.push(f)
    }
}

/// Files in the order of their paths.
pub open spec fn by_path(fs: Seq<LegacyFileView>) -> Seq<LegacyFileView>
    decreases fs.len(),
{
    if fs.len() == 0 {
        Seq::empty()
    } else {
        file_placed(by_path(fs.drop_last()), fs.last())
    }
}

/// Whether one legacy revision was recorded after another.
pub open spec fn legacy_newer(a: LegacyRevisionView, b: LegacyRevisionView) -> bool {
    a.recorded_at_ms > b.recorded_at_ms || (a.recorded_at_ms == b.recorded_at_ms && a.id > b.id)
}

/// Revisions, oldest first, with one more put in its place.
pub open spec fn legacy_placed(
    sorted: Seq<LegacyRevisionView>,
    r: LegacyRevisionView,
) -> Seq<LegacyRevisionView>
    decreases sorted.len(),
{
    if sorted.len() > 0 && legacy_newer(sorted.last(), r) {
        legacy_placed(sorted.drop_last(), r).push(sorted.last())
    } else {
        sorted.push(r)
    }
}

/// The revisions of a file, oldest first.
pub open spec fn legacy_history(rs: Seq<LegacyRevisionView>, file_id: i64) -> Seq<
    LegacyRevisionView,
>
    decreases rs.len(),
{
    if rs.len() == 0 {
        Seq::empty()
    } else if rs.last().file_id == file_id {
        legacy_placed(legacy_history(rs.drop_last(), file_id), rs.last())
    } else {
        legacy_history(rs.drop_last(), file_id)
    }
}

/// The files at the given positions.
spec fn files_at(rows: Seq<LegacyFileRow>, picks: Seq<usize>) -> Seq<LegacyFileView> {
    picks.map_values(|i: usize| rows[i as int]@)
}

/// The revisions at the given positions.
spec fn revisions_at(rows: Seq<LegacyRevisionRow>, picks: Seq<usize>) -> Seq<LegacyRevisionView> {
    picks.map_values(|i: usize| rows[i as int]@)
}

proof fn lemma_file_placed_at(sorted: Seq<LegacyFileView>, f: LegacyFileView, k: int)
    requires
        0 <= k <= sorted.len(),
        forall|j: int| k <= j < sorted.len() ==> text_before(f.path, (#[trigger] sorted[j]).path),
        k > 0 ==> !text_before(f.path, sorted[k - 1].path),
    ensures
        file_placed(sorted, f) == sorted.insert(k, f),
    decreases sorted.len(),
{
    if k < sorted.len() {
        assert(text_before(f.path, sorted[sorted.len() - 1].path));
        let rest = sorted.drop_last();
        assert forall|j: int| k <= j < rest.len() implies text_before(
            f.path,
            (#[trigger] rest[j]).path,
        ) by {
            assert(rest[j] == sorted[j]);
        }
        lemma_file_placed_at(rest, f, k);
        assert(file_placed(sorted, f) =~= sorted.insert(k, f));
    } else {
        assert(file_placed(sorted, f) =~= sorted.insert(k, f));
    }
}

proof fn lemma_legacy_placed_at(sorted: Seq<LegacyRevisionView>, r: LegacyRevisionView, k: int)
    requires
        0 <= k <= sorted.len(),
        forall|j: int| k <= j < sorted.len() ==> legacy_newer(#[trigger] sorted[j], r),
        k > 0 ==> !legacy_newer(sorted[k - 1], r),
    ensures
        legacy_placed(sorted, r) == sorted.insert(k, r),
    decreases sorted.len(),
{
    if k < sorted.len() {
        assert(legacy_newer(sorted[sorted.len() - 1], r));
        let rest = sorted.drop_last();
        assert forall|j: int| k <= j < rest.len() implies legacy_newer(#[trigger] rest[j], r) by {
            assert(rest[j] == sorted[j]);
        }
        lemma_legacy_placed_at(rest, r, k);
        assert(legacy_placed(sorted, r) =~= sorted.insert(k, r));
    } else {
        assert(legacy_placed(sorted, r) =~= sorted.insert(k, r));
    }
}

/// The positions of the files in the order of their paths.
fn load_legacy_files(rows: &Vec<LegacyFileRow>) -> (out: Vec<usize>)
    ensures
        forall|i: int| 0 <= i < out@.len() ==> #[trigger] out@[i] < rows@.len(),
        files_at(rows@, out@) == by_path(legacy_file_views(rows@)),
{
    let ghost all = legacy_file_views(rows@);
    let mut out: Vec<usize> = Vec::new();
    let mut i: usize = 0;
    assert(files_at(rows@, out@) =~= by_path(all.take(0)));
    while i < rows.len()
        invariant
            i <= rows@.len(),
            all == legacy_file_views(rows@),
            files_at(rows@, out@) == by_path(all.take(i as int)),
            forall|i: int| 0 <= i < out@.len() ==> #[trigger] out@[i] < rows@.len(),
        decreases rows@.len() - i,
    {
        let ghost sorted = files_at(rows@, out@);
        let ghost f = rows@[i as int]@;
        let mut k: usize = out.len();
        while k > 0 && text_is_before(rows[i].path.as_str(), rows[out[k - 1]].path.as_str())
            invariant
                k <= out@.len(),
                i < rows@.len(),
                f == rows@[i as int]@,
                sorted == files_at(rows@, out@),
                forall|i: int| 0 <= i < out@.len() ==> #[trigger] out@[i] < rows@.len(),
                forall|j: int|
                    k <= j < sorted.len() ==> text_before(f.path, (#[trigger] sorted[j]).path),
            decreases k,
        {
            assert(sorted[k - 1] == rows@[out@[k - 1] as int]@);
            k -= 1;
        }
        proof {
            if k > 0 {
                assert(sorted[k - 1] == rows@[out@[k - 1] as int]@);
            }
            lemma_file_placed_at(sorted, f, k as int);
            assert(all.take(i + 1).drop_last() =~= all.take(i as int));
            assert(all.take(i + 1).last() == f);
        }
        out.insert(k, i);
        assert(files_at(rows@, out@) =~= sorted.insert(k as int, f));
        i += 1;
    }
    assert(all.take(i as int) =~= all);
    out
}

/// The positions of the revisions of a file, oldest first.
fn load_legacy_revisions_for_file(rows: &Vec<LegacyRevisionRow>, file_id: i64) -> (out: Vec<usize>)
    ensures
        forall|i: int| 0 <= i < out@.len() ==> #[trigger] out@[i] < rows@.len(),
        revisions_at(rows@, out@) == legacy_history(legacy_revision_views(rows@), file_id),
{
    let ghost all = legacy_revision_views(rows@);
    let mut out: Vec<usize> = Vec::new();
    let mut i: usize = 0;
    assert(revisions_at(rows@, out@) =~= legacy_history(all.take(0), file_id));
    while i < rows.len()
        invariant
            i <= rows@.len(),
            all == legacy_revision_views(rows@),
            revisions_at(rows@, out@) == legacy_history(all.take(i as int), file_id),
            forall|i: int| 0 <= i < out@.len() ==> #[trigger] out@[i] < rows@.len(),
        decreases rows@.len() - i,
    {
        let ghost sorted = revisions_at(rows@, out@);
        let ghost r = rows@[i as int]@;
        proof {
            assert(all.take(i + 1).drop_last() =~= all.take(i as int));
            assert(all.take(i + 1).last() == r);
        }
        if rows[i].file_id == file_id {
            let mut k: usize = out.len();
            while k > 0 && (rows[out[k - 1]].recorded_at_ms > rows[i].recorded_at_ms || (
            rows[out[k - 1]].recorded_at_ms == rows[i].recorded_at_ms && rows[out[k - 1]].id
                > rows[i].id))
                invariant
                    k <= out@.len(),
                    i < rows@.len(),
                    r == rows@[i as int]@,
                    sorted == revisions_at(rows@, out@),
                    forall|i: int| 0 <= i < out@.len() ==> #[trigger] out@[i] < rows@.len(),
                    forall|j: int| k <= j < sorted.len() ==> legacy_newer(#[trigger] sorted[j], r),
                decreases k,
            {
                assert(sorted[k - 1] == rows@[out@[k - 1] as int]@);
                k -= 1;
            }
            proof {
                if k > 0 {
                    assert(sorted[k - 1] == rows@[out@[k - 1] as int]@);
                }
                lemma_legacy_placed_at(sorted, r, k as int);
            }
            out.insert(k, i);
            assert(revisions_at(rows@, out@) =~= sorted.insert(k as int, r));
        }
        i += 1;
    }
    assert(all.take(i as int) =~= all);
    out
}

// ---------------------------------------------------------------------------
// Contents
// ---------------------------------------------------------------------------

/// The content of a legacy revision, from that of the one before it.
pub open spec fn legacy_content(previous: Option<Seq<char>>, r: LegacyRevisionView) -> Result<
    Seq<char>,
    StoreError,
> {
    match r.storage_kind {
        StorageKind::Full => match r.payload {
            None => Err(StoreError::LegacyMissingFullPayload),
            Some(bytes) => if valid_utf8(bytes) {
                Ok(decode_utf8(bytes))
            } else {
                Err(StoreError::LegacyInvalidUtf8)
            },
        },
        StorageKind::Patch => match r.payload {
            None => Err(StoreError::LegacyMissingPatchPayload),
            Some(bytes) => match previous {
                None => Err(StoreError::LegacyMissingPrevious),
                Some(before) => match patch_outcome(before, bytes) {
                    Ok(text) => Ok(text),
                    Err(e) => Err(StoreError::Delta(e)),
                },
            },
        },
        StorageKind::Absent => Err(StoreError::LegacyNoContent),
    }
}

/// The content of a legacy revision, from that of the one before it.
pub fn materialize_legacy_content(
    previous_content: &Option<String>,
    revision: &LegacyRevisionRow,
) -> (res: Result<String, StoreError>)
    ensures
        match res {
            Ok(text) => legacy_content(opt_text(*previous_content), revision@) == Ok::<
                Seq<char>,
                StoreError,
            >(text@),
            Err(e) => legacy_content(opt_text(*previous_content), revision@) == Err::<
                Seq<char>,
                StoreError,
            >(e),
        },
{
    match revision.storage_kind {
        StorageKind::Full => match &revision.payload {
            None => Err(StoreError::LegacyMissingFullPayload),
            Some(bytes) => match text_from_utf8(slice_to_vec(bytes.as_slice())) {
                Some(text) => Ok(text),
                None => Err(StoreError::LegacyInvalidUtf8),
            },
        },
        StorageKind::Patch => match &revision.payload {
            None => Err(StoreError::LegacyMissingPatchPayload),
            Some(bytes) => match previous_content {
                None => Err(StoreError::LegacyMissingPrevious),
                Some(before) => match apply_patch(before.as_str(), bytes.as_slice()) {
                    Ok(text) => Ok(text),
                    Err(e) => Err(StoreError::Delta(e)),
                },
            },
        },
        StorageKind::Absent => Err(StoreError::LegacyNoContent),
    }
}

// ---------------------------------------------------------------------------
// The migration
// ---------------------------------------------------------------------------

/// The file that one legacy file becomes in one context, and the last ordinal in it.
#[derive(Debug)]
struct LaneRow {
    fingerprint: String,
    file_id: i64,
    ordinal: i64,
}

/// The view of a [`LaneRow`].
pub struct Lane {
    pub fingerprint: Seq<char>,
    pub file_id: i64,
    pub ordinal: i64,
}

impl View for LaneRow {
    type V = Lane;

    closed spec fn view(&self) -> Lane {
        Lane {
            fingerprint: self.fingerprint@,
            file_id: self.file_id,
            ordinal: self.ordinal,
        }
    }
}

spec fn lane_views(v: Seq<LaneRow>) -> Seq<Lane> {
    v.map_values(|l: LaneRow| l@)
}

/// How far the migration of one legacy file has come.
pub struct Progress {
    pub tables: Tables,
    /// The content after the last revision, where the file was there.
    pub content: Option<Seq<char>>,
    pub lanes: Seq<Lane>,
}

/// The position of the lane of a context; the number of lanes where there is none.
pub open spec fn lane_of(lanes: Seq<Lane>, fingerprint: Seq<char>) -> int
    decreases lanes.len(),
{
    if lanes.len() == 0 {
        0
    } else {
        let i = lane_of(lanes.drop_last(), fingerprint);
        if i < lanes.len() - 1 {
            i
        } else if lanes.last().fingerprint == fingerprint {
            lanes.len() - 1
        } else {
            lanes.len() as int
        }
    }
}

/// The tables and lanes with the lane of a revision's context, one ordinal further. A
/// context that is met for the first time is noted, and the file in it.
pub open spec fn entered(
    p: Progress,
    path: Seq<char>,
    project_root: Seq<char>,
    r: LegacyRevisionView,
) -> Result<(Tables, Seq<Lane>, Lane), StoreError> {
    let record = record_of(project_root, r.git_context);
    let i = lane_of(p.lanes, record.fingerprint);
    if i < p.lanes.len() {
        let lane = Lane { ordinal: (p.lanes[i].ordinal + 1) as i64, ..p.lanes[i] };
        Ok((p.tables, p.lanes.update(i, lane), lane))
    } else {
        match with_context(p.tables, record, r.recorded_at_ms) {
            Err(e) => Err(e),
            Ok((u, context_id)) => match with_file(u, context_id, path, r.recorded_at_ms) {
                Err(e) => Err(e),
                Ok((v, file_id)) => {
                    let lane = Lane { fingerprint: record.fingerprint, file_id, ordinal: 1 };
                    Ok((v, p.lanes.push(lane), lane))
                },
            },
        }
    }
}

/// The revision that a legacy revision becomes: a full copy of its content, or an end.
pub open spec fn migrated_row(
    id: i64,
    lane: Lane,
    r: LegacyRevisionView,
    content: Option<Seq<char>>,
) -> RevisionView {
    match content {
        None => RevisionView {
            id,
            file_id: lane.file_id,
            ordinal: lane.ordinal,
            recorded_at_ms: r.recorded_at_ms,
            event_type: EventType::Delete,
            storage_kind: StorageKind::Absent,
            base_revision_id: None,
            content_hash: None,
            size_bytes: None,
            payload: None,
        },
        Some(text) => RevisionView {
            id,
            file_id: lane.file_id,
            ordinal: lane.ordinal,
            recorded_at_ms: r.recorded_at_ms,
            event_type: r.event_type,
            storage_kind: StorageKind::Full,
            base_revision_id: None,
            content_hash: Some(sha256_hex(text)),
            size_bytes: Some(byte_len(text) as i64),
            payload: Some(encode_utf8(text)),
        },
    }
}

/// The content after a legacy revision; none where it is an end.
pub open spec fn content_after(previous: Option<Seq<char>>, r: LegacyRevisionView) -> Result<
    Option<Seq<char>>,
    StoreError,
> {
    if r.event_type == EventType::Delete {
        Ok(None)
    } else {
        match legacy_content(previous, r) {
            Ok(text) => Ok(Some(text)),
            Err(e) => Err(e),
        }
    }
}

/// How far the migration of a file has come after one more revision.
pub open spec fn advanced(
    p: Progress,
    path: Seq<char>,
    project_root: Seq<char>,
    r: LegacyRevisionView,
) -> Result<Progress, StoreError> {
    match entered(p, path, project_root, r) {
        Err(e) => Err(e),
        Ok((u, lanes, lane)) => match content_after(p.content, r) {
            Err(e) => Err(e),
            Ok(content) => match with_revision(
                u,
                migrated_row((u.last_revision_id + 1) as i64, lane, r, content),
            ) {
                Err(e) => Err(e),
                Ok(v) => Ok(Progress { tables: v, content, lanes }),
            },
        },
    }
}

/// How far the migration of a file has come after its first revisions.
pub open spec fn file_progress(
    t: Tables,
    path: Seq<char>,
    project_root: Seq<char>,
    rs: Seq<LegacyRevisionView>,
) -> Result<Progress, StoreError>
    decreases rs.len(),
{
    if rs.len() == 0 {
        Ok(Progress { tables: t, content: None, lanes: Seq::empty() })
    } else {
        match file_progress(t, path, project_root, rs.drop_last()) {
            Err(e) => Err(e),
            Ok(p) => advanced(p, path, project_root, rs.last()),
        }
    }
}

/// The tables after the given files were migrated, one after the other.
pub open spec fn migrated(
    t: Tables,
    fs: Seq<LegacyFileView>,
    rs: Seq<LegacyRevisionView>,
    project_root: Seq<char>,
) -> Result<Tables, StoreError>
    decreases fs.len(),
{
    if fs.len() == 0 {
        Ok(t)
    } else {
        match migrated(t, fs.drop_last(), rs, project_root) {
            Err(e) => Err(e),
            Ok(u) => match file_progress(
                u,
                fs.last().path,
                project_root,
                legacy_history(rs, fs.last().id),
            ) {
                Err(e) => Err(e),
                Ok(p) => Ok(p.tables),
            },
        }
    }
}

/// The tables of a timeline without rows but for the watcher's slot.
pub open spec fn only_watcher(watcher: Option<WatcherView>) -> Tables {
    Tables { watcher, ..Tables::empty() }
}

/// The lane of a context is that of its fingerprint.
pub proof fn lemma_lane_of(lanes: Seq<Lane>, fingerprint: Seq<char>)
    ensures
        0 <= lane_of(lanes, fingerprint) <= lanes.len(),
        lane_of(lanes, fingerprint) < lanes.len() ==> lanes[lane_of(
            lanes,
            fingerprint,
        )].fingerprint == fingerprint,
    decreases lanes.len(),
{
    if lanes.len() > 0 {
        lemma_lane_of(lanes.drop_last(), fingerprint);
    }
}

proof fn lemma_lane_stays(lanes: Seq<Lane>, fingerprint: Seq<char>, n: int)
    requires
        0 <= n <= lanes.len(),
        lane_of(lanes.take(n), fingerprint) < n,
    ensures
        lane_of(lanes, fingerprint) == lane_of(lanes.take(n), fingerprint),
    decreases lanes.len(),
{
    if n == lanes.len() {
        assert(lanes.take(n) =~= lanes);
    } else {
        assert(lanes.drop_last().take(n) =~= lanes.take(n));
        lemma_lane_stays(lanes.drop_last(), fingerprint, n);
    }
}

fn find_lane(lanes: &Vec<LaneRow>, fingerprint: &str) -> (i: usize)
    ensures
        i == lane_of(lane_views(lanes@), fingerprint@),
        i <= lanes@.len(),
{
    let ghost all = lane_views(lanes@);
    let mut i: usize = 0;
    while i < lanes.len()
        invariant
            i <= lanes@.len(),
            all == lane_views(lanes@),
            lane_of(all.take(i as int), fingerprint@) == i,
        decreases lanes@.len() - i,
    {
        assert(all.take(i + 1).drop_last() =~= all.take(i as int));
        assert(all.take(i + 1).last() == lanes@[i as int]@);
        if same_text(lanes[i].fingerprint.as_str(), fingerprint) {
            proof {
                lemma_lane_stays(all, fingerprint@, i + 1);
            }
            return i;
        }
        i += 1;
    }
    assert(all.take(i as int) =~= all);
    i
}

proof fn lemma_file_progress_fails(
    t: Tables,
    path: Seq<char>,
    project_root: Seq<char>,
    rs: Seq<LegacyRevisionView>,
    n: int,
)
    requires
        0 <= n <= rs.len(),
        file_progress(t, path, project_root, rs.take(n)) is Err,
    ensures
        file_progress(t, path, project_root, rs) == file_progress(
            t,
            path,
            project_root,
            rs.take(n),
        ),
    decreases rs.len(),
{
    if n == rs.len() {
        assert(rs.take(n) =~= rs);
    } else {
        assert(rs.drop_last().take(n) =~= rs.take(n));
        lemma_file_progress_fails(t, path, project_root, rs.drop_last(), n);
    }
}

proof fn lemma_migration_fails(
    t: Tables,
    fs: Seq<LegacyFileView>,
    rs: Seq<LegacyRevisionView>,
    project_root: Seq<char>,
    n: int,
)
    requires
        0 <= n <= fs.len(),
        migrated(t, fs.take(n), rs, project_root) is Err,
    ensures
        migrated(t, fs, rs, project_root) == migrated(t, fs.take(n), rs, project_root),
    decreases fs.len(),
{
    if n == fs.len() {
        assert(fs.take(n) =~= fs);
    } else {
        assert(fs.drop_last().take(n) =~= fs.take(n));
        lemma_migration_fails(t, fs.drop_last(), rs, project_root, n);
    }
}

/// Whether every lane runs in a file of the tables, and no ordinal is above the last
/// revision number.
spec fn lanes_hold(t: Tables, lanes: Seq<Lane>) -> bool {
    forall|i: int|
        0 <= i < lanes.len() ==> has_file(t.files, (#[trigger] lanes[i]).file_id) && 1
            <= lanes[i].ordinal <= t.last_revision_id
}

/// Files, once there, stay when contexts and files are noted.
proof fn lemma_files_stay(t: Tables, record: RecordView, path: Seq<char>, ms: i64)
    ensures
        match with_context(t, record, ms) {
            Ok((u, id)) => {
                &&& u.files == t.files
                &&& u.revisions == t.revisions
                &&& u.last_revision_id == t.last_revision_id
                &&& match with_file(u, id, path, ms) {
                    Ok((v, _)) => {
                        &&& v.revisions == t.revisions
                        &&& v.last_revision_id == t.last_revision_id
                        &&& forall|f: i64| has_file(t.files, f) ==> has_file(v.files, f)
                    },
                    Err(_) => true,
                }
            },
            Err(_) => true,
        },
{
    match with_context(t, record, ms) {
        Ok((u, id)) => match with_file(u, id, path, ms) {
            Ok((v, _)) => {
                assert forall|f: i64| has_file(t.files, f) implies has_file(v.files, f) by {
                    let i = choose|i: int| 0 <= i < t.files.len() && (#[trigger] t.files[i]).id == f;
                    assert(v.files[i].id == f);
                }
            },
            Err(_) => {},
        },
        Err(_) => {},
    }
}

impl TimelineStore {
    /// Migrates one revision of a legacy file.
    #[verifier::rlimit(40)]
    #[verifier::spinoff_prover]
    fn migrate_revision(
        &mut self,
        path: &str,
        revision: &LegacyRevisionRow,
        content: &mut Option<String>,
        lanes: &mut Vec<LaneRow>,
    ) -> (res: Result<(), StoreError>)
        requires
            old(self).wf(),
            lanes_hold(old(self).tables(), lane_views(old(lanes)@)),
        ensures
            final(self).wf(),
            old(self).tables().linked() ==> final(self).tables().linked(),
            final(self).same_project(old(self)),
            ({
                let before = Progress {
                    tables: old(self).tables(),
                    content: opt_text(*old(content)),
                    lanes: lane_views(old(lanes)@),
                };
                match res {
                    Ok(_) => {
                        &&& advanced(before, path@, old(self).root(), revision@) == Ok::<
                            Progress,
                            StoreError,
                        >(
                            Progress {
                                tables: final(self).tables(),
                                content: opt_text(*final(content)),
                                lanes: lane_views(final(lanes)@),
                            },
                        )
                        &&& lanes_hold(final(self).tables(), lane_views(final(lanes)@))
                    },
                    Err(e) => advanced(before, path@, old(self).root(), revision@) == Err::<
                        Progress,
                        StoreError,
                    >(e),
                }
            }),
    {
        let ghost t = self.tables();
        let ghost lanes0 = lane_views(lanes@);
        let record = ContextRecord::from_legacy(self.project_root(), revision.git_context.as_ref());
        let ms: i64 = revision.recorded_at_ms;
        let at: usize = find_lane(lanes, record.fingerprint.as_str());
        proof {
            lemma_lane_of(lanes0, record@.fingerprint);
            lemma_files_stay(t, record@, path@, ms);
        }
        let mut file_id: i64 = 0;
        let known = at < lanes.len();
        if !known {
            let context_id: i64 = match self.ensure_record(&record, ms) {
                Ok(id) => id,
                Err(e) => {
                    return Err(e);
                },
            };
            file_id = match self.upsert_tracked_file(context_id, path, ms) {
                Ok(id) => id,
                Err(e) => {
                    return Err(e);
                },
            };
        } else {
            assert(lanes0[at as int] == lanes@[at as int]@);
            file_id = lanes[at].file_id;
        }
        let ghost u = self.tables();
        let next_content: Option<String> = match revision.event_type {
            EventType::Delete => None,
            _ => match materialize_legacy_content(content, revision) {
                Ok(text) => Some(text),
                Err(e) => {
                    return Err(e);
                },
            },
        };
        if self.last_revision_id() == i64::MAX {
            return Err(StoreError::NumbersExhausted);
        }
        let ordinal: i64 = if known {
            lanes[at].ordinal + 1
        } else {
            1
        };
        if self.ordinal_is_taken(file_id, ordinal) {
            return Err(StoreError::OrdinalTaken);
        }
        let id: i64 = self.last_revision_id() + 1;
        let row = match &next_content {
            None => RevisionRow {
                id,
                file_id,
                ordinal,
                recorded_at_ms: ms,
                event_type: EventType::Delete,
                storage_kind: StorageKind::Absent,
                base_revision_id: None,
                content_hash: None,
                size_bytes: None,
                payload: None,
            },
            Some(text) => RevisionRow {
                id,
                file_id,
                ordinal,
                recorded_at_ms: ms,
                event_type: revision.event_type,
                storage_kind: StorageKind::Full,
                base_revision_id: None,
                content_hash: Some(hash_text(text.as_str())),
                size_bytes: Some(size_of_text(text.as_str()) as i64),
                payload: Some(slice_to_vec(text.as_str().as_bytes())),
            },
        };
        let ghost lane = Lane { fingerprint: record@.fingerprint, file_id, ordinal };
        proof {
            assert(row@ =~= migrated_row(id, lane, revision@, opt_text(next_content)));
            if known {
                assert(lanes0[at as int].fingerprint == record@.fingerprint);
                assert(has_file(u.files, lanes0[at as int].file_id));
            }
        }
        self.insert_revision(row);
        let lane_row = LaneRow { fingerprint: record.fingerprint, file_id, ordinal };
        if known {
            lanes.set(at, lane_row);
            assert(lane_views(lanes@) =~= lanes0.update(at as int, lane));
        } else {
            lanes.push(lane_row);
            assert(lane_views(lanes@) =~= lanes0.push(lane));
        }
        *content = next_content;
        proof {
            let after = lane_views(lanes@);
            assert forall|i: int| 0 <= i < after.len() implies has_file(
                self.tables().files,
                (#[trigger] after[i]).file_id,
            ) && 1 <= after[i].ordinal <= self.tables().last_revision_id by {
                if i < lanes0.len() {
                    assert(has_file(t.files, lanes0[i].file_id));
                }
            }
        }
        Ok(())
    }

    /// Migrates all revisions of a legacy file.
    fn migrate_file(&mut self, path: &str, rows: &Vec<LegacyRevisionRow>, order: &Vec<usize>) -> (res:
        Result<(), StoreError>)
        requires
            old(self).wf(),
            forall|i: int| 0 <= i < order@.len() ==> #[trigger] order@[i] < rows@.len(),
        ensures
            final(self).wf(),
            old(self).tables().linked() ==> final(self).tables().linked(),
            final(self).same_project(old(self)),
            ({
                let expected = file_progress(
                    old(self).tables(),
                    path@,
                    old(self).root(),
                    revisions_at(rows@, order@),
                );
                match res {
                    Ok(_) => expected matches Ok(p) && p.tables == final(self).tables(),
                    Err(e) => expected == Err::<Progress, StoreError>(e),
                }
            }),
    {
        let ghost t = self.tables();
        let ghost all = revisions_at(rows@, order@);
        let mut content: Option<String> = None;
        let mut lanes: Vec<LaneRow> = Vec::new();
        let mut i: usize = 0;
        assert(lane_views(lanes@) =~= Seq::<Lane>::empty());
        while i < order.len()
            invariant
                i <= order@.len(),
                self.wf(),
                old(self).tables().linked() ==> self.tables().linked(),
                self.same_project(old(self)),
                t == old(self).tables(),
                all == revisions_at(rows@, order@),
                forall|i: int| 0 <= i < order@.len() ==> #[trigger] order@[i] < rows@.len(),
                lanes_hold(self.tables(), lane_views(lanes@)),
                file_progress(t, path@, self.root(), all.take(i as int)) == Ok::<
                    Progress,
                    StoreError,
                >(
                    Progress {
                        tables: self.tables(),
                        content: opt_text(content),
                        lanes: lane_views(lanes@),
                    },
                ),
            decreases order@.len() - i,
        {
            proof {
                assert(all.take(i + 1).drop_last() =~= all.take(i as int));
                assert(all.take(i + 1).last() == rows@[order@[i as int] as int]@);
            }
            match self.migrate_revision(path, &rows[order[i]], &mut content, &mut lanes) {
                Ok(_) => {},
                Err(e) => {
                    proof {
                        lemma_file_progress_fails(t, path@, self.root(), all, i + 1);
                    }
                    return Err(e);
                },
            }
            i += 1;
        }
        assert(all.take(i as int) =~= all);
        Ok(())
    }

    /// The timeline that the rows of the first layout become. The watcher's slot is kept.
    pub fn migrate_v1_to_v2(
        project_root: String,
        config: TimelineConfig,
        watcher: Option<WatcherRow>,
        files: &Vec<LegacyFileRow>,
        revisions: &Vec<LegacyRevisionRow>,
    ) -> (res: Result<TimelineStore, StoreError>)
        ensures
            ({
                let expected = migrated(
                    only_watcher(opt_watcher(watcher)),
                    by_path(legacy_file_views(files@)),
                    legacy_revision_views(revisions@),
                    project_root@,
                );
                match res {
                    Ok(store) => {
                        &&& expected == Ok::<Tables, StoreError>(store.tables())
                        &&& store.wf()
                        &&& store.tables().linked()
                        &&& store.origin() == only_watcher(opt_watcher(watcher))
                        &&& store.settings() == config
                        &&& store.root() == project_root@
                    },
                    Err(e) => expected == Err::<Tables, StoreError>(e),
                }
            }),
    {
        let ghost root = project_root@;
        let ghost t = only_watcher(opt_watcher(watcher));
        let mut rows = StoredRows::empty();
        rows.watcher = watcher;
        assert(rows@ =~= t);
        assert(t.wf());
        let mut store = match TimelineStore::open(project_root, config, rows) {
            Ok(store) => store,
            Err(e) => {
                assert(false);
                return Err(e);
            },
        };
        let order = load_legacy_files(files);
        let ghost all = files_at(files@, order@);
        let ghost rs = legacy_revision_views(revisions@);
        let mut i: usize = 0;
        while i < order.len()
            invariant
                i <= order@.len(),
                store.wf(),
                store.tables().linked(),
                store.root() == root,
                store.settings() == config,
                store.origin() == t,
                t == only_watcher(opt_watcher(watcher)),
                root == project_root@,
                all == files_at(files@, order@),
                all == by_path(legacy_file_views(files@)),
                rs == legacy_revision_views(revisions@),
                forall|i: int| 0 <= i < order@.len() ==> #[trigger] order@[i] < files@.len(),
                migrated(t, all.take(i as int), rs, root) == Ok::<Tables, StoreError>(
                    store.tables(),
                ),
            decreases order@.len() - i,
        {
            let file = &files[order[i]];
            proof {
                assert(all.take(i + 1).drop_last() =~= all.take(i as int));
                assert(all.take(i + 1).last() == file@);
            }
            let history = load_legacy_revisions_for_file(revisions, file.id);
            match store.migrate_file(file.path.as_str(), revisions, &history) {
                Ok(_) => {},
                Err(e) => {
                    proof {
                        lemma_migration_fails(t, all, rs, root, i + 1);
                    }
                    return Err(e);
                },
            }
            i += 1;
        }
        assert(all.take(i as int) =~= all);
        Ok(store)
    }
}

// ---------------------------------------------------------------------------
// What a migration leaves
// ---------------------------------------------------------------------------

/// Whether a revision is an end that holds nothing, or a full copy of a text with the
/// digest of it.
pub open spec fn stands_alone(r: RevisionView) -> bool {
    &&& r.base_revision_id is None
    &&& if r.event_type == EventType::Delete {
        r.storage_kind == StorageKind::Absent && r.size_bytes is None
    } else {
        &&& r.storage_kind == StorageKind::Full
        &&& r.size_bytes is Some
        &&& exists|text: Seq<char>|
            r.payload == Some(#[trigger] encode_utf8(text)) && r.content_hash == Some(
                sha256_hex(text),
            )
    }
}

/// Whether every revision stands alone.
pub open spec fn all_stand_alone(rs: Seq<RevisionView>) -> bool {
    forall|i: int| 0 <= i < rs.len() ==> stands_alone(#[trigger] rs[i])
}

/// The content after the revisions of a legacy file, replayed from the first on.
pub open spec fn replayed(rs: Seq<LegacyRevisionView>) -> Result<Option<Seq<char>>, StoreError>
    decreases rs.len(),
{
    if rs.len() == 0 {
        Ok(None)
    } else {
        match replayed(rs.drop_last()) {
            Ok(content) => content_after(content, rs.last()),
            Err(e) => Err(e),
        }
    }
}

/// Each revision of a legacy file becomes one that holds what replaying the legacy
/// revisions up to it gives, whatever contexts they were recorded in.
pub proof fn law_migration_replays_contents(
    t: Tables,
    path: Seq<char>,
    project_root: Seq<char>,
    rs: Seq<LegacyRevisionView>,
)
    requires
        file_progress(t, path, project_root, rs) is Ok,
    ensures
        ({
            let p = file_progress(t, path, project_root, rs)->Ok_0;
            &&& replayed(rs) == Ok::<Option<Seq<char>>, StoreError>(p.content)
            &&& p.tables.revisions.len() == t.revisions.len() + rs.len()
            &&& rs.len() > 0 ==> exists|id: i64, lane: Lane|
                p.tables.revisions.last() == #[trigger] migrated_row(id, lane, rs.last(), p.content)
        }),
    decreases rs.len(),
{
    if rs.len() > 0 {
        law_migration_replays_contents(t, path, project_root, rs.drop_last());
        let before = file_progress(t, path, project_root, rs.drop_last())->Ok_0;
        let (u, lanes, lane) = entered(before, path, project_root, rs.last())->Ok_0;
        lemma_entering_keeps_revisions(before, path, project_root, rs.last());
        let p = file_progress(t, path, project_root, rs)->Ok_0;
        let row = migrated_row((u.last_revision_id + 1) as i64, lane, rs.last(), p.content);
        assert(p.tables.revisions == u.revisions.push(row));
        assert(p.tables.revisions.last() == row);
    }
}

proof fn lemma_entering_keeps_revisions(
    p: Progress,
    path: Seq<char>,
    project_root: Seq<char>,
    r: LegacyRevisionView,
)
    requires
        entered(p, path, project_root, r) is Ok,
    ensures
        entered(p, path, project_root, r)->Ok_0.0.revisions == p.tables.revisions,
{
    let record = record_of(project_root, r.git_context);
    lemma_files_stay(p.tables, record, path, r.recorded_at_ms);
}

proof fn lemma_file_stands_alone(
    t: Tables,
    path: Seq<char>,
    project_root: Seq<char>,
    rs: Seq<LegacyRevisionView>,
)
    requires
        all_stand_alone(t.revisions),
        file_progress(t, path, project_root, rs) is Ok,
    ensures
        all_stand_alone(file_progress(t, path, project_root, rs)->Ok_0.tables.revisions),
    decreases rs.len(),
{
    if rs.len() > 0 {
        lemma_file_stands_alone(t, path, project_root, rs.drop_last());
        let before = file_progress(t, path, project_root, rs.drop_last())->Ok_0;
        let r = rs.last();
        let (u, lanes, lane) = entered(before, path, project_root, r)->Ok_0;
        lemma_entering_keeps_revisions(before, path, project_root, r);
        let p = file_progress(t, path, project_root, rs)->Ok_0;
        let row = migrated_row((u.last_revision_id + 1) as i64, lane, r, p.content);
        assert(p.tables.revisions == u.revisions.push(row));
        assert(stands_alone(row)) by {
            if p.content is Some {
                assert(row.payload == Some(encode_utf8(p.content->Some_0)));
            }
        }
        assert forall|i: int| 0 <= i < p.tables.revisions.len() implies stands_alone(
            #[trigger] p.tables.revisions[i],
        ) by {
            if i < u.revisions.len() {
                assert(p.tables.revisions[i] == before.tables.revisions[i]);
            }
        }
    }
}

/// After a migration no revision rests on another: each is a full copy or an end, and the
/// timeline is sound.
pub proof fn law_migration_leaves_full_copies(
    watcher: Option<WatcherView>,
    fs: Seq<LegacyFileView>,
    rs: Seq<LegacyRevisionView>,
    project_root: Seq<char>,
)
    requires
        migrated(only_watcher(watcher), fs, rs, project_root) is Ok,
    ensures
        all_stand_alone(
            migrated(only_watcher(watcher), fs, rs, project_root)->Ok_0.revisions,
        ),
        sound(migrated(only_watcher(watcher), fs, rs, project_root)->Ok_0),
    decreases fs.len(),
{
    let t = migrated(only_watcher(watcher), fs, rs, project_root)->Ok_0;
    if fs.len() > 0 {
        law_migration_leaves_full_copies(watcher, fs.drop_last(), rs, project_root);
        let u = migrated(only_watcher(watcher), fs.drop_last(), rs, project_root)->Ok_0;
        lemma_file_stands_alone(
            u,
            fs.last().path,
            project_root,
            legacy_history(rs, fs.last().id),
        );
    }
    assert forall|i: int|
        0 <= i < t.revisions.len() && (#[trigger] t.revisions[i]).event_type
            != EventType::Delete implies reads_back(t.revisions, t.revisions[i]) by {
        let r = t.revisions[i];
        assert(stands_alone(r));
        let text = choose|text: Seq<char>|
            r.payload == Some(#[trigger] encode_utf8(text)) && r.content_hash == Some(
                sha256_hex(text),
            );
        encode_utf8_valid_utf8(text);
        encode_utf8_decode_utf8(text);
        lemma_one_full(t.revisions, r, r.id, set![r.id]);
    }
}

} // verus!
