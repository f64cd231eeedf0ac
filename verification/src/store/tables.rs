//! The tables of a timeline, the changes that can happen to their rows, and the store
//! that holds them together with the list of changes made since it was opened.
use std::collections::HashSet;

use vstd::prelude::*;
use vstd::string::*;

use crate::config::TimelineConfig;
use crate::delta::DeltaError;
use crate::store::rows::{
    change_views,
    context_views,
    copy_record,
    copy_revision,
    file_views,
    opt_watcher,
    revision_views,
    ChangeView,
    ContextRecord,
    ContextRow,
    ContextView,
    FileRow,
    FileView,
    RevisionRow,
    RevisionView,
    RowChange,
    WatcherRow,
    WatcherView,
};
use crate::text::{concat, same_text, signed_decimal, signed_decimal_text};

verus! {

/// Why an operation on the store failed. A number is that of the revision concerned.
#[derive(Debug, Clone, Copy, PartialEq, Eq, Structural)]
pub enum StoreError {
    /// The numbers of the rows do not ascend, or two rows cannot be told apart.
    Corrupted,
    /// No context has this number.
    UnknownContext(i64),
    /// The next revision number of the file is already in use.
    OrdinalTaken,
    /// There is no row number or ordinal left.
    NumbersExhausted,
    /// The pattern that paths are held against is too long.
    PatternTooLong,
    MissingRevision(i64),
    DeletedRevision(i64),
    MissingBase(i64),
    MissingBaseRevision(i64),
    /// The bases of the revision lead back to one of themselves.
    BaseLoop(i64),
    MissingFullPayload(i64),
    MissingPatchPayload(i64),
    InvalidUtf8(i64),
    NoContent(i64),
    Delta(DeltaError),
    /// The rows were written by a version of the program that is not known.
    UnsupportedVersion(i64),
    LegacyMissingFullPayload,
    LegacyMissingPatchPayload,
    LegacyInvalidUtf8,
    LegacyMissingPrevious,
    LegacyNoContent,
}

/// What a failure says to the user.
pub open spec fn store_message(e: StoreError) -> Seq<char> {
    match e {
        StoreError::Corrupted => "timeline metadata appears corrupted"@,
        StoreError::UnknownContext(id) => "unknown context "@ + signed_decimal(id as int),
        StoreError::OrdinalTaken => "the next revision of the file already exists"@,
        StoreError::NumbersExhausted => "no row number is left"@,
        StoreError::PatternTooLong => "LIKE or GLOB pattern too complex"@,
        StoreError::MissingRevision(id) => "missing revision "@ + signed_decimal(id as int),
        StoreError::DeletedRevision(id) => "cannot reconstruct deleted revision "@
            + signed_decimal(id as int),
        StoreError::MissingBase(id) => "revision chain for "@ + signed_decimal(id as int)
            + " is missing a base"@,
        StoreError::MissingBaseRevision(id) => "missing base revision "@ + signed_decimal(
            id as int,
        ),
        StoreError::BaseLoop(id) => "revision chain for "@ + signed_decimal(id as int)
            + " leads back to itself"@,
        StoreError::MissingFullPayload(id) => "revision "@ + signed_decimal(id as int)
            + " is missing a full payload"@,
        StoreError::MissingPatchPayload(id) => "revision "@ + signed_decimal(id as int)
            + " is missing a patch payload"@,
        StoreError::InvalidUtf8(id) => "revision "@ + signed_decimal(id as int)
            + " contains invalid UTF-8"@,
        StoreError::NoContent(id) => "revision "@ + signed_decimal(id as int)
            + " has no reconstructable content"@,
        StoreError::Delta(DeltaError::NotUtf8) => "patch payload is not valid UTF-8"@,
        StoreError::Delta(DeltaError::NotAPatch) => "failed to parse stored patch"@,
        StoreError::Delta(DeltaError::DoesNotApply) => "failed to apply stored patch"@,
        StoreError::UnsupportedVersion(v) => "unsupported timeline schema version "@
            + signed_decimal(v as int),
        StoreError::LegacyMissingFullPayload => "legacy revision is missing a full payload"@,
        StoreError::LegacyMissingPatchPayload => "legacy revision is missing a patch payload"@,
        StoreError::LegacyInvalidUtf8 => "legacy revision contains invalid UTF-8"@,
        StoreError::LegacyMissingPrevious => "legacy patch is missing a previous revision"@,
        StoreError::LegacyNoContent => "legacy revision has no reconstructable content"@,
    }
}

impl StoreError {
    /// What the failure says to the user.
    pub fn message(&self) -> (m: String)
        ensures
            m@ == store_message(*self),
    {
        match self {
            StoreError::Corrupted => "timeline metadata appears corrupted".to_owned(),
            StoreError::UnknownContext(id) => numbered("unknown context ", *id),
            StoreError::OrdinalTaken => {
                "the next revision of the file already exists".to_owned()
            },
            StoreError::NumbersExhausted => "no row number is left".to_owned(),
            StoreError::PatternTooLong => "LIKE or GLOB pattern too complex".to_owned(),
            StoreError::MissingRevision(id) => numbered("missing revision ", *id),
            StoreError::DeletedRevision(id) => {
                numbered("cannot reconstruct deleted revision ", *id)
            },
            StoreError::MissingBase(id) => concat(
                numbered("revision chain for ", *id).as_str(),
                " is missing a base",
            ),
            StoreError::MissingBaseRevision(id) => numbered("missing base revision ", *id),
            StoreError::BaseLoop(id) => concat(
                numbered("revision chain for ", *id).as_str(),
                " leads back to itself",
            ),
            StoreError::MissingFullPayload(id) => concat(
                numbered("revision ", *id).as_str(),
                " is missing a full payload",
            ),
            StoreError::MissingPatchPayload(id) => concat(
                numbered("revision ", *id).as_str(),
                " is missing a patch payload",
            ),
            StoreError::InvalidUtf8(id) => concat(
                numbered("revision ", *id).as_str(),
                " contains invalid UTF-8",
            ),
            StoreError::NoContent(id) => concat(
                numbered("revision ", *id).as_str(),
                " has no reconstructable content",
            ),
            StoreError::Delta(e) => e.message().to_owned(),
            StoreError::UnsupportedVersion(v) => {
                numbered("unsupported timeline schema version ", *v)
            },
            StoreError::LegacyMissingFullPayload => {
                "legacy revision is missing a full payload".to_owned()
            },
            StoreError::LegacyMissingPatchPayload => {
                "legacy revision is missing a patch payload".to_owned()
            },
            StoreError::LegacyInvalidUtf8 => {
                "legacy revision contains invalid UTF-8".to_owned()
            },
            StoreError::LegacyMissingPrevious => {
                "legacy patch is missing a previous revision".to_owned()
            },
            StoreError::LegacyNoContent => {
                "legacy revision has no reconstructable content".to_owned()
            },
        }
    }
}

fn numbered(text: &str, n: i64) -> (s: String)
    ensures
        s@ == text@ + signed_decimal(n as int),
{
    concat(text, signed_decimal_text(n).as_str())
}

/// The tables of a timeline. The last numbers are those given out last, also where the
/// row is gone since.
#[verifier::ext_equal]
pub struct Tables {
    pub contexts: Seq<ContextView>,
    pub files: Seq<FileView>,
    pub revisions: Seq<RevisionView>,
    pub watcher: Option<WatcherView>,
    pub last_context_id: i64,
    pub last_file_id: i64,
    pub last_revision_id: i64,
}

/// Whether some context has this number.
pub open spec fn has_context(cs: Seq<ContextView>, id: i64) -> bool {
    exists|i: int| 0 <= i < cs.len() && (#[trigger] cs[i]).id == id
}

/// Whether some file has this number.
pub open spec fn has_file(fs: Seq<FileView>, id: i64) -> bool {
    exists|i: int| 0 <= i < fs.len() && (#[trigger] fs[i]).id == id
}

/// Whether some revision has this number.
pub open spec fn has_revision(rs: Seq<RevisionView>, id: i64) -> bool {
    exists|i: int| 0 <= i < rs.len() && (#[trigger] rs[i]).id == id
}

/// Whether the base that a revision names is there.
pub open spec fn base_holds(rs: Seq<RevisionView>, r: RevisionView) -> bool {
    match r.base_revision_id {
        Some(b) => has_revision(rs, b),
        None => true,
    }
}

/// Whether no two contexts have the same fingerprint.
pub open spec fn fingerprints_differ(cs: Seq<ContextView>) -> bool {
    forall|i: int, j: int|
        0 <= i < j < cs.len() ==> (#[trigger] cs[i]).record.fingerprint != (
        #[trigger] cs[j]).record.fingerprint
}

/// Whether no two files of a context have the same path.
pub open spec fn paths_differ(fs: Seq<FileView>) -> bool {
    forall|i: int, j: int|
        0 <= i < j < fs.len() ==> !((#[trigger] fs[i]).context_id == (
        #[trigger] fs[j]).context_id && fs[i].path == fs[j].path)
}

/// Whether no two revisions of a file have the same ordinal.
pub open spec fn ordinals_differ(rs: Seq<RevisionView>) -> bool {
    forall|i: int, j: int|
        0 <= i < j < rs.len() ==> !((#[trigger] rs[i]).file_id == (#[trigger] rs[j]).file_id
            && rs[i].ordinal == rs[j].ordinal)
}

/// Whether all rows are told apart: contexts by their fingerprints, files by context and
/// path, revisions by file and ordinal.
pub open spec fn rows_differ(t: Tables) -> bool {
    &&& fingerprints_differ(t.contexts)
    &&& paths_differ(t.files)
    &&& ordinals_differ(t.revisions)
}

/// Whether context numbers ascend, up to the last one given out.
pub open spec fn context_ids_ascend(cs: Seq<ContextView>, last: i64) -> bool {
    &&& last >= 0
    &&& forall|i: int| 0 <= i < cs.len() ==> (#[trigger] cs[i]).id <= last
    &&& forall|i: int, j: int|
        0 <= i < j < cs.len() ==> (#[trigger] cs[i]).id < (#[trigger] cs[j]).id
}

/// Whether file numbers ascend, up to the last one given out.
pub open spec fn file_ids_ascend(fs: Seq<FileView>, last: i64) -> bool {
    &&& last >= 0
    &&& forall|i: int| 0 <= i < fs.len() ==> (#[trigger] fs[i]).id <= last
    &&& forall|i: int, j: int|
        0 <= i < j < fs.len() ==> (#[trigger] fs[i]).id < (#[trigger] fs[j]).id
}

/// Whether revision numbers ascend, up to the last one given out.
pub open spec fn revision_ids_ascend(rs: Seq<RevisionView>, last: i64) -> bool {
    &&& last >= 0
    &&& forall|i: int| 0 <= i < rs.len() ==> (#[trigger] rs[i]).id <= last
    &&& forall|i: int, j: int|
        0 <= i < j < rs.len() ==> (#[trigger] rs[i]).id < (#[trigger] rs[j]).id
}

impl Tables {
    /// The tables of a new project.
    pub open spec fn empty() -> Tables {
        Tables {
            contexts: Seq::empty(),
            files: Seq::empty(),
            revisions: Seq::empty(),
            watcher: None,
            last_context_id: 0,
            last_file_id: 0,
            last_revision_id: 0,
        }
    }

    /// Whether numbers ascend and all rows are told apart.
    pub open spec fn keyed(self) -> bool {
        &&& context_ids_ascend(self.contexts, self.last_context_id)
        &&& file_ids_ascend(self.files, self.last_file_id)
        &&& revision_ids_ascend(self.revisions, self.last_revision_id)
        &&& rows_differ(self)
    }

    /// Whether a file belongs to a context, a revision to a file, and a base is there.
    pub open spec fn linked(self) -> bool {
        &&& forall|i: int|
            0 <= i < self.files.len() ==> has_context(
                self.contexts,
                (#[trigger] self.files[i]).context_id,
            )
        &&& forall|i: int|
            0 <= i < self.revisions.len() ==> {
                &&& has_file(self.files, (#[trigger] self.revisions[i]).file_id)
                &&& base_holds(self.revisions, self.revisions[i])
            }
    }

    /// Whether the rows agree: numbers ascend, all rows are told apart, and what a row
    /// names is there.
    pub open spec fn wf(self) -> bool {
        self.keyed() && self.linked()
    }
}

// ---------------------------------------------------------------------------
// Changes
// ---------------------------------------------------------------------------

/// The revision, no longer resting on a revision that is gone.
pub open spec fn unlinked(r: RevisionView, gone: i64) -> RevisionView {
    if r.base_revision_id == Some(gone) {
        RevisionView { base_revision_id: None, ..r }
    } else {
        r
    }
}

/// The revisions without the one of this number; none rests on it any more.
pub open spec fn without_revision(rs: Seq<RevisionView>, gone: i64) -> Seq<RevisionView>
    decreases rs.len(),
{
    if rs.len() == 0 {
        Seq::empty()
    } else {
        let rest = without_revision(rs.drop_last(), gone);
        if rs.last().id == gone {
            rest
        } else {
            rest.push(unlinked(rs.last(), gone))
        }
    }
}

/// The tables after one change. An inserted row comes last; an updated row replaces
/// the one of its number.
pub open spec fn apply_change(t: Tables, change: ChangeView) -> Tables {
    match change {
        ChangeView::InsertContext(r) => Tables {
            contexts: t.contexts.push(r),
            last_context_id: r.id,
            ..t
        },
        ChangeView::UpdateContext(r) => Tables {
            contexts: t.contexts.map_values(
                |x: ContextView|
                    if x.id == r.id {
                        r
                    } else {
                        x
                    },
            ),
            ..t
        },
        ChangeView::SkipContextNumber => Tables {
            last_context_id: (t.last_context_id + 1) as i64,
            ..t
        },
        ChangeView::InsertFile(r) => Tables { files: t.files.push(r), last_file_id: r.id, ..t },
        ChangeView::UpdateFile(r) => Tables {
            files: t.files.map_values(
                |x: FileView|
                    if x.id == r.id {
                        r
                    } else {
                        x
                    },
            ),
            ..t
        },
        ChangeView::SkipFileNumber => Tables { last_file_id: (t.last_file_id + 1) as i64, ..t },
        ChangeView::InsertRevision(r) => Tables {
            revisions: t.revisions.push(r),
            last_revision_id: r.id,
            ..t
        },
        ChangeView::UpdateRevision(r) => Tables {
            revisions: t.revisions.map_values(
                |x: RevisionView|
                    if x.id == r.id {
                        r
                    } else {
                        x
                    },
            ),
            ..t
        },
        ChangeView::DeleteRevision(id) => Tables {
            revisions: without_revision(t.revisions, id),
            ..t
        },
        ChangeView::SetWatcher(w) => Tables { watcher: Some(w), ..t },
    }
}

/// The tables after a list of changes, made one after the other.
pub open spec fn replay(t: Tables, changes: Seq<ChangeView>) -> Tables
    decreases changes.len(),
{
    if changes.len() == 0 {
        t
    } else {
        apply_change(replay(t, changes.drop_last()), changes.last())
    }
}

proof fn lemma_replay_push(t: Tables, changes: Seq<ChangeView>, change: ChangeView)
    ensures
        replay(t, changes.push(change)) == apply_change(replay(t, changes), change),
{
    assert(changes.push(change).drop_last() =~= changes);
}

/// Removing the row at a position, where numbers ascend.
pub proof fn lemma_without_at(rs: Seq<RevisionView>, at: int)
    requires
        0 <= at < rs.len(),
        forall|i: int, j: int|
            0 <= i < j < rs.len() ==> (#[trigger] rs[i]).id < (#[trigger] rs[j]).id,
    ensures
        without_revision(rs, rs[at].id) == rs.remove(at).map_values(
            |x: RevisionView| unlinked(x, rs[at].id),
        ),
    decreases rs.len(),
{
    let gone = rs[at].id;
    let f = |x: RevisionView| unlinked(x, gone);
    let rest = rs.drop_last();
    if at == rs.len() - 1 {
        lemma_without_absent(rest, gone);
        assert(rs.remove(at) =~= rest);
    } else {
        assert forall|i: int, j: int| 0 <= i < j < rest.len() implies (#[trigger] rest[i]).id < (
        #[trigger] rest[j]).id by {
            assert(rest[i] == rs[i] && rest[j] == rs[j]);
        }
        lemma_without_at(rest, at);
        assert(rest[at] == rs[at]);
        assert(rs.last().id != gone) by {
            assert(rs[at].id < rs[rs.len() - 1].id);
        }
        assert(rs.remove(at) =~= rest.remove(at).push(rs.last()));
        assert(without_revision(rs, gone) =~= rs.remove(at).map_values(f));
    }
}

proof fn lemma_without_absent(rs: Seq<RevisionView>, gone: i64)
    requires
        forall|i: int| 0 <= i < rs.len() ==> (#[trigger] rs[i]).id != gone,
    ensures
        without_revision(rs, gone) == rs.map_values(|x: RevisionView| unlinked(x, gone)),
    decreases rs.len(),
{
    let f = |x: RevisionView| unlinked(x, gone);
    if rs.len() > 0 {
        let rest = rs.drop_last();
        assert forall|i: int| 0 <= i < rest.len() implies (#[trigger] rest[i]).id != gone by {
            assert(rest[i] == rs[i]);
        }
        lemma_without_absent(rest, gone);
        assert(rs.last() == rs[rs.len() - 1]);
        assert(without_revision(rs, gone) =~= rs.map_values(f));
    } else {
        assert(without_revision(rs, gone) =~= rs.map_values(f));
    }
}

// ---------------------------------------------------------------------------
// The store
// ---------------------------------------------------------------------------

/// Whether numbers ascend, up to `last`.
fn numbers_ascend(ids: &Vec<i64>, last: i64) -> (r: bool)
    ensures
        r == ({
            &&& last >= 0
            &&& forall|i: int| 0 <= i < ids@.len() ==> #[trigger] ids@[i] <= last
            &&& forall|i: int, j: int|
                0 <= i < j < ids@.len() ==> #[trigger] ids@[i] < #[trigger] ids@[j]
        }),
{
    if last < 0 {
        return false;
    }
    let mut k: usize = 0;
    while k < ids.len()
        invariant
            k <= ids@.len(),
            forall|i: int| 0 <= i < k ==> #[trigger] ids@[i] <= last,
            forall|i: int, j: int| 0 <= i < j < k ==> #[trigger] ids@[i] < #[trigger] ids@[j],
        decreases ids@.len() - k,
    {
        let id: i64 = ids[k];
        if id > last || (k > 0 && id <= ids[k - 1]) {
            return false;
        }
        k += 1;
    }
    true
}

/// The number under which a pair of numbers is looked up.
spec fn pair_key(a: i64, b: i64) -> int {
    (a + 0x8000_0000_0000_0000) * 0x1_0000_0000_0000_0000 + (b + 0x8000_0000_0000_0000)
}

fn key_of_pair(a: i64, b: i64) -> (key: u128)
    ensures
        key == pair_key(a, b),
{
    let high: u128 = (a as i128 + 0x8000_0000_0000_0000) as u128;
    let low: u128 = (b as i128 + 0x8000_0000_0000_0000) as u128;
    high * 0x1_0000_0000_0000_0000 + low
}

/// The position of the file of this number, found by halving.
pub(crate) fn position_of_file(files: &Vec<FileRow>, id: i64) -> (res: Option<usize>)
    requires
        forall|i: int, j: int|
            0 <= i < j < files@.len() ==> (#[trigger] files@[i]).id < (#[trigger] files@[j]).id,
    ensures
        match res {
            Some(p) => p < files@.len() && files@[p as int].id == id,
            None => forall|i: int| 0 <= i < files@.len() ==> (#[trigger] files@[i]).id != id,
        },
{
    let mut lo: usize = 0;
    let mut hi: usize = files.len();
    while lo < hi
        invariant
            lo <= hi <= files@.len(),
            forall|i: int| 0 <= i < lo ==> (#[trigger] files@[i]).id < id,
            forall|i: int| hi <= i < files@.len() ==> (#[trigger] files@[i]).id > id,
            forall|i: int, j: int|
                0 <= i < j < files@.len() ==> (#[trigger] files@[i]).id < (#[trigger] files@[j]).id,
        decreases hi - lo,
    {
        let mid: usize = lo + (hi - lo) / 2;
        let found: i64 = files[mid].id;
        if found == id {
            return Some(mid);
        }
        if found < id {
            lo = mid + 1;
        } else {
            hi = mid;
        }
    }
    None
}

/// The position of the revision of this number, found by halving.
pub(crate) fn position_of_revision(rows: &Vec<RevisionRow>, id: i64) -> (res: Option<usize>)
    requires
        forall|i: int, j: int|
            0 <= i < j < rows@.len() ==> (#[trigger] rows@[i]).id < (#[trigger] rows@[j]).id,
    ensures
        match res {
            Some(p) => p < rows@.len() && rows@[p as int].id == id,
            None => forall|i: int| 0 <= i < rows@.len() ==> (#[trigger] rows@[i]).id != id,
        },
{
    let mut lo: usize = 0;
    let mut hi: usize = rows.len();
    while lo < hi
        invariant
            lo <= hi <= rows@.len(),
            forall|i: int| 0 <= i < lo ==> (#[trigger] rows@[i]).id < id,
            forall|i: int| hi <= i < rows@.len() ==> (#[trigger] rows@[i]).id > id,
            forall|i: int, j: int|
                0 <= i < j < rows@.len() ==> (#[trigger] rows@[i]).id < (#[trigger] rows@[j]).id,
        decreases hi - lo,
    {
        let mid: usize = lo + (hi - lo) / 2;
        let found: i64 = rows[mid].id;
        if found == id {
            return Some(mid);
        }
        if found < id {
            lo = mid + 1;
        } else {
            hi = mid;
        }
    }
    None
}

/// The rows that a store is opened on, in the order of their numbers.
#[derive(Debug)]
pub struct StoredRows {
    pub contexts: Vec<ContextRow>,
    pub files: Vec<FileRow>,
    pub revisions: Vec<RevisionRow>,
    pub watcher: Option<WatcherRow>,
    pub last_context_id: i64,
    pub last_file_id: i64,
    pub last_revision_id: i64,
}

impl View for StoredRows {
    type V = Tables;

    open spec fn view(&self) -> Tables {
        Tables {
            contexts: context_views(self.contexts@),
            files: file_views(self.files@),
            revisions: revision_views(self.revisions@),
            watcher: opt_watcher(self.watcher),
            last_context_id: self.last_context_id,
            last_file_id: self.last_file_id,
            last_revision_id: self.last_revision_id,
        }
    }
}

impl StoredRows {
    /// The rows of a new project.
    pub fn empty() -> (r: StoredRows)
        ensures
            r@ == Tables::empty(),
    {
        let r = StoredRows {
            contexts: Vec::new(),
            files: Vec::new(),
            revisions: Vec::new(),
            watcher: None,
            last_context_id: 0,
            last_file_id: 0,
            last_revision_id: 0,
        };
        assert(r@ =~= Tables::empty());
        r
    }

    fn contexts_ascend(&self) -> (r: bool)
        ensures
            r == context_ids_ascend(self@.contexts, self.last_context_id),
    {
        let mut ids: Vec<i64> = Vec::new();
        for i in 0..self.contexts.len()
            invariant
                ids@.len() == i,
                forall|j: int|
                    #![trigger ids@[j]]
                    #![trigger self@.contexts[j]]
                    0 <= j < i ==> ids@[j] == self@.contexts[j].id,
        {
            ids.push(self.contexts[i].id);
        }
        numbers_ascend(&ids, self.last_context_id)
    }

    fn files_ascend(&self) -> (r: bool)
        ensures
            r == file_ids_ascend(self@.files, self.last_file_id),
    {
        let mut ids: Vec<i64> = Vec::new();
        for i in 0..self.files.len()
            invariant
                ids@.len() == i,
                forall|j: int|
                    #![trigger ids@[j]]
                    #![trigger self@.files[j]]
                    0 <= j < i ==> ids@[j] == self@.files[j].id,
        {
            ids.push(self.files[i].id);
        }
        numbers_ascend(&ids, self.last_file_id)
    }

    fn revisions_ascend(&self) -> (r: bool)
        ensures
            r == revision_ids_ascend(self@.revisions, self.last_revision_id),
    {
        let mut ids: Vec<i64> = Vec::new();
        for i in 0..self.revisions.len()
            invariant
                ids@.len() == i,
                forall|j: int|
                    #![trigger ids@[j]]
                    #![trigger self@.revisions[j]]
                    0 <= j < i ==> ids@[j] == self@.revisions[j].id,
        {
            ids.push(self.revisions[i].id);
        }
        numbers_ascend(&ids, self.last_revision_id)
    }

    fn contexts_differ(&self) -> (r: bool)
        ensures
            r == fingerprints_differ(self@.contexts),
    {
        let ghost cs = self@.contexts;
        let mut j: usize = 0;
        while j < self.contexts.len()
            invariant
                cs == self@.contexts,
                j <= self.contexts@.len(),
                forall|x: int, y: int|
                    0 <= x < y < j ==> (#[trigger] cs[x]).record.fingerprint != (
                    #[trigger] cs[y]).record.fingerprint,
            decreases self.contexts@.len() - j,
        {
            let mut i: usize = 0;
            while i < j
                invariant
                    cs == self@.contexts,
                    i <= j < self.contexts@.len(),
                    forall|x: int|
                        0 <= x < i ==> (#[trigger] cs[x]).record.fingerprint
                            != cs[j as int].record.fingerprint,
                decreases j - i,
            {
                assert(cs[i as int] == self.contexts@[i as int]@);
                assert(cs[j as int] == self.contexts@[j as int]@);
                if same_text(
                    self.contexts[i].record.fingerprint.as_str(),
                    self.contexts[j].record.fingerprint.as_str(),
                ) {
                    return false;
                }
                i += 1;
            }
            j += 1;
        }
        true
    }

    fn files_differ(&self) -> (r: bool)
        ensures
            r == paths_differ(self@.files),
    {
        let ghost fs = self@.files;
        let mut j: usize = 0;
        while j < self.files.len()
            invariant
                fs == self@.files,
                j <= self.files@.len(),
                forall|x: int, y: int|
                    0 <= x < y < j ==> !((#[trigger] fs[x]).context_id == (
                    #[trigger] fs[y]).context_id && fs[x].path == fs[y].path),
            decreases self.files@.len() - j,
        {
            let mut i: usize = 0;
            while i < j
                invariant
                    fs == self@.files,
                    i <= j < self.files@.len(),
                    forall|x: int|
                        0 <= x < i ==> !((#[trigger] fs[x]).context_id == fs[j as int].context_id
                            && fs[x].path == fs[j as int].path),
                decreases j - i,
            {
                assert(fs[i as int] == self.files@[i as int]@);
                assert(fs[j as int] == self.files@[j as int]@);
                if self.files[i].context_id == self.files[j].context_id && same_text(
                    self.files[i].path.as_str(),
                    self.files[j].path.as_str(),
                ) {
                    return false;
                }
                i += 1;
            }
            j += 1;
        }
        true
    }

    fn revisions_differ(&self) -> (r: bool)
        ensures
            r == ordinals_differ(self@.revisions),
    {
        broadcast use vstd::std_specs::hash::group_hash_axioms;

        let ghost rs = self@.revisions;
        let mut keys: HashSet<u128> = HashSet::new();
        let mut j: usize = 0;
        while j < self.revisions.len()
            invariant
                rs == self@.revisions,
                j <= self.revisions@.len(),
                forall|x: int, y: int|
                    0 <= x < y < j ==> !((#[trigger] rs[x]).file_id == (#[trigger] rs[y]).file_id
                        && rs[x].ordinal == rs[y].ordinal),
                forall|key: u128| #[trigger]
                    keys@.contains(key) <==> exists|x: int|
                        0 <= x < j && key == pair_key((#[trigger] rs[x]).file_id, rs[x].ordinal),
            decreases self.revisions@.len() - j,
        {
            assert(rs[j as int] == self.revisions@[j as int]@);
            let key: u128 = key_of_pair(self.revisions[j].file_id, self.revisions[j].ordinal);
            let ghost before = keys@;
            if !keys.insert(key) {
                proof {
                    assert(before.contains(key));
                    let x = choose|x: int|
                        0 <= x < j && key == pair_key((#[trigger] rs[x]).file_id, rs[x].ordinal);
                    assert(rs[x].file_id == rs[j as int].file_id && rs[x].ordinal
                        == rs[j as int].ordinal);
                }
                return false;
            }
            proof {
                assert forall|x: int| 0 <= x < j implies !((#[trigger] rs[x]).file_id
                    == rs[j as int].file_id && rs[x].ordinal == rs[j as int].ordinal) by {
                    if rs[x].file_id == rs[j as int].file_id && rs[x].ordinal
                        == rs[j as int].ordinal {
                        assert(before.contains(key));
                    }
                }
                assert forall|k: u128| #[trigger]
                    keys@.contains(k) <==> exists|x: int|
                        0 <= x < j + 1 && k == pair_key(
                            (#[trigger] rs[x]).file_id,
                            rs[x].ordinal,
                        ) by {
                    if keys@.contains(k) {
                        if k == key {
                            assert(k == pair_key(rs[j as int].file_id, rs[j as int].ordinal));
                        } else {
                            assert(before.contains(k));
                        }
                    }
                }
            }
            j += 1;
        }
        true
    }

    /// Whether numbers ascend and all rows are told apart.
    pub fn hold(&self) -> (r: bool)
        ensures
            r == self@.keyed(),
    {
        self.contexts_ascend() && self.files_ascend() && self.revisions_ascend()
            && self.contexts_differ() && self.files_differ() && self.revisions_differ()
    }
}

/// A timeline: its tables, and the changes made to them since it was opened.
pub struct TimelineStore {
    rows: StoredRows,
    changes: Vec<RowChange>,
    origin: Ghost<Tables>,
    config: TimelineConfig,
    project_root: String,
}

impl TimelineStore {
    /// The tables as they are now.
    pub closed spec fn tables(&self) -> Tables {
        self.rows@
    }

    /// The tables as they were when the changes were last handed out, or when the store
    /// was opened.
    pub closed spec fn origin(&self) -> Tables {
        self.origin@
    }

    /// The changes made since then.
    pub closed spec fn journal(&self) -> Seq<ChangeView> {
        change_views(self.changes@)
    }

    /// The settings.
    pub closed spec fn settings(&self) -> TimelineConfig {
        self.config
    }

    /// The project directory.
    pub closed spec fn root(&self) -> Seq<char> {
        self.project_root@
    }

    /// Whether the rows of the tables are told apart, and the changes lead from the origin
    /// to them.
    pub open spec fn wf(&self) -> bool {
        &&& self.tables().keyed()
        &&& replay(self.origin(), self.journal()) == self.tables()
    }

    /// Whether nothing but the tables and the journal differs from `other`.
    pub open spec fn same_project(&self, other: &TimelineStore) -> bool {
        &&& self.settings() == other.settings()
        &&& self.root() == other.root()
        &&& self.origin() == other.origin()
    }

    /// A store on the given rows; refused where their numbers do not ascend or two of them
    /// cannot be told apart. A row may name one that is not there.
    pub fn open(project_root: String, config: TimelineConfig, rows: StoredRows) -> (res: Result<
        Self,
        StoreError,
    >)
        ensures
            match res {
                Ok(store) => {
                    &&& rows@.keyed()
                    &&& store.wf()
                    &&& store.tables() == rows@
                    &&& store.origin() == rows@
                    &&& store.journal() == Seq::<ChangeView>::empty()
                    &&& store.settings() == config
                    &&& store.root() == project_root@
                },
                Err(e) => !rows@.keyed() && e == StoreError::Corrupted,
            },
    {
        if !rows.hold() {
            return Err(StoreError::Corrupted);
        }
        let ghost tables = rows@;
        let store = TimelineStore {
            rows,
            changes: Vec::new(),
            origin: Ghost(tables),
            config,
            project_root,
        };
        assert(store.journal() =~= Seq::<ChangeView>::empty());
        Ok(store)
    }

    /// A store of its own on the same rows, with no changes made.
    pub(crate) fn copied(&self) -> (res: Self)
        requires
            self.wf(),
        ensures
            res.wf(),
            res.tables() == self.tables(),
    {
        let mut contexts: Vec<ContextRow> = Vec::new();
        let mut i: usize = 0;
        while i < self.rows.contexts.len()
            invariant
                i <= self.rows.contexts@.len(),
                contexts@.len() == i,
                forall|j: int|
                    0 <= j < i ==> (#[trigger] contexts@[j])@ == self.rows.contexts@[j]@,
            decreases self.rows.contexts@.len() - i,
        {
            let row = &self.rows.contexts[i];
            contexts.push(
                ContextRow {
                    id: row.id,
                    record: copy_record(&row.record),
                    first_seen_ms: row.first_seen_ms,
                    last_seen_ms: row.last_seen_ms,
                },
            );
            i += 1;
        }
        let mut files: Vec<FileRow> = Vec::new();
        i = 0;
        while i < self.rows.files.len()
            invariant
                i <= self.rows.files@.len(),
                files@.len() == i,
                forall|j: int| 0 <= j < i ==> (#[trigger] files@[j])@ == self.rows.files@[j]@,
            decreases self.rows.files@.len() - i,
        {
            let row = &self.rows.files[i];
            files.push(
                FileRow {
                    id: row.id,
                    context_id: row.context_id,
                    path: row.path.clone(),
                    first_seen_ms: row.first_seen_ms,
                    last_seen_ms: row.last_seen_ms,
                },
            );
            i += 1;
        }
        let mut revisions: Vec<RevisionRow> = Vec::new();
        i = 0;
        while i < self.rows.revisions.len()
            invariant
                i <= self.rows.revisions@.len(),
                revisions@.len() == i,
                forall|j: int|
                    0 <= j < i ==> (#[trigger] revisions@[j])@ == self.rows.revisions@[j]@,
            decreases self.rows.revisions@.len() - i,
        {
            revisions.push(copy_revision(&self.rows.revisions[i]));
            i += 1;
        }
        let watcher = match &self.rows.watcher {
            Some(w) => Some(
                WatcherRow {
                    pid: w.pid,
                    root_path: w.root_path.clone(),
                    started_at_ms: w.started_at_ms,
                    heartbeat_ms: w.heartbeat_ms,
                },
            ),
            None => None,
        };
        let rows = StoredRows {
            contexts,
            files,
            revisions,
            watcher,
            last_context_id: self.rows.last_context_id,
            last_file_id: self.rows.last_file_id,
            last_revision_id: self.rows.last_revision_id,
        };
        proof {
            assert(rows@.contexts =~= self.rows@.contexts);
            assert(rows@.files =~= self.rows@.files);
            assert(rows@.revisions =~= self.rows@.revisions);
        }
        let res = TimelineStore {
            rows,
            changes: Vec::new(),
            origin: Ghost(self.tables()),
            config: self.config,
            project_root: self.project_root.clone(),
        };
        assert(res.journal() =~= Seq::<ChangeView>::empty());
        res
    }

    /// Hands out the changes made since this was last done, in order.
    pub fn take_changes(&mut self) -> (res: Vec<RowChange>)
        requires
            old(self).wf(),
        ensures
            change_views(res@) == old(self).journal(),
            replay(old(self).origin(), change_views(res@)) == final(self).tables(),
            final(self).wf(),
            final(self).tables() == old(self).tables(),
            final(self).origin() == old(self).tables(),
            final(self).journal() == Seq::<ChangeView>::empty(),
            final(self).settings() == old(self).settings(),
            final(self).root() == old(self).root(),
    {
        let mut out: Vec<RowChange> = Vec::new();
        std::mem::swap(&mut out, &mut self.changes);
        self.origin = Ghost(self.rows@);
        assert(self.journal() =~= Seq::<ChangeView>::empty());
        out
    }

    /// The settings.
    pub fn config(&self) -> (c: TimelineConfig)
        ensures
            c == self.settings(),
    {
        self.config
    }

    /// The project directory.
    pub fn project_root(&self) -> (s: &str)
        ensures
            s@ == self.root(),
    {
        self.project_root.as_str()
    }

    pub(crate) fn contexts(&self) -> (v: &Vec<ContextRow>)
        ensures
            context_views(v@) == self.tables().contexts,
    {
        &self.rows.contexts
    }

    pub(crate) fn files(&self) -> (v: &Vec<FileRow>)
        ensures
            file_views(v@) == self.tables().files,
    {
        &self.rows.files
    }

    pub(crate) fn revisions(&self) -> (v: &Vec<RevisionRow>)
        ensures
            revision_views(v@) == self.tables().revisions,
    {
        &self.rows.revisions
    }

    pub(crate) fn watcher(&self) -> (w: &Option<WatcherRow>)
        ensures
            opt_watcher(*w) == self.tables().watcher,
    {
        &self.rows.watcher
    }

    pub(crate) fn last_file_id(&self) -> (id: i64)
        ensures
            id == self.tables().last_file_id,
    {
        self.rows.last_file_id
    }

    pub(crate) fn last_revision_id(&self) -> (id: i64)
        ensures
            id == self.tables().last_revision_id,
    {
        self.rows.last_revision_id
    }

    pub(crate) fn last_context_id(&self) -> (id: i64)
        ensures
            id == self.tables().last_context_id,
    {
        self.rows.last_context_id
    }

    fn log(&mut self, change: RowChange)
        ensures
            final(self).rows == old(self).rows,
            final(self).origin == old(self).origin,
            final(self).config == old(self).config,
            final(self).project_root == old(self).project_root,
            final(self).journal() == old(self).journal().push(change@),
            replay(final(self).origin(), final(self).journal()) == apply_change(
                replay(old(self).origin(), old(self).journal()),
                change@,
            ),
    {
        let ghost before = self.journal();
        self.changes.push(change);
        proof {
            assert(self.journal() =~= before.push(change@));
            lemma_replay_push(self.origin(), before, change@);
        }
    }

    /// Adds a context under the next number.
    pub(crate) fn insert_context(&mut self, record: &ContextRecord, seen_ms: i64) -> (id: i64)
        requires
            old(self).wf(),
            old(self).tables().last_context_id < i64::MAX,
            forall|i: int|
                0 <= i < old(self).tables().contexts.len() ==> (
                #[trigger] old(self).tables().contexts[i]).record.fingerprint
                    != record@.fingerprint,
        ensures
            id == old(self).tables().last_context_id + 1,
            final(self).wf(),
            old(self).tables().linked() ==> final(self).tables().linked(),
            final(self).same_project(old(self)),
            ({
                let change = ChangeView::InsertContext(
                    ContextView {
                        id,
                        record: record@,
                        first_seen_ms: seen_ms,
                        last_seen_ms: seen_ms,
                    },
                );
                &&& final(self).tables() == apply_change(old(self).tables(), change)
                &&& final(self).journal() == old(self).journal().push(change)
            }),
    {
        let ghost t = self.tables();
        let id: i64 = self.rows.last_context_id + 1;
        let row = ContextRow {
            id,
            record: copy_record(record),
            first_seen_ms: seen_ms,
            last_seen_ms: seen_ms,
        };
        let copy = ContextRow {
            id,
            record: copy_record(record),
            first_seen_ms: seen_ms,
            last_seen_ms: seen_ms,
        };
        let ghost change = ChangeView::InsertContext(row@);
        self.rows.contexts.push(row);
        self.rows.last_context_id = id;
        self.log(RowChange::InsertContext(copy));
        proof {
            assert(self.tables() =~= apply_change(t, change));
            let u = self.tables();
            assert forall|i: int, j: int| 0 <= i < j < u.contexts.len() implies (
            #[trigger] u.contexts[i]).record.fingerprint != (
            #[trigger] u.contexts[j]).record.fingerprint by {
                assert(u.contexts[i] == t.contexts[i]);
                if j < t.contexts.len() {
                    assert(u.contexts[j] == t.contexts[j]);
                }
            }
            if t.linked() {
                assert forall|i: int| 0 <= i < u.files.len() implies has_context(
                    u.contexts,
                    (#[trigger] u.files[i]).context_id,
                ) by {
                    let j = choose|j: int|
                        0 <= j < t.contexts.len() && (#[trigger] t.contexts[j]).id
                            == t.files[i].context_id;
                    assert(u.contexts[j] == t.contexts[j]);
                }
            }
        }
        id
    }

    /// Passes over the next number for a context.
    pub(crate) fn skip_context_number(&mut self)
        requires
            old(self).wf(),
            old(self).tables().last_context_id < i64::MAX,
        ensures
            final(self).wf(),
            old(self).tables().linked() ==> final(self).tables().linked(),
            final(self).same_project(old(self)),
            final(self).tables() == apply_change(
                old(self).tables(),
                ChangeView::SkipContextNumber,
            ),
    {
        let ghost t = self.tables();
        self.rows.last_context_id = self.rows.last_context_id + 1;
        self.log(RowChange::SkipContextNumber);
        assert(self.tables() =~= apply_change(t, ChangeView::SkipContextNumber));
    }

    /// Passes over the next number for a file.
    pub(crate) fn skip_file_number(&mut self)
        requires
            old(self).wf(),
            old(self).tables().last_file_id < i64::MAX,
        ensures
            final(self).wf(),
            old(self).tables().linked() ==> final(self).tables().linked(),
            final(self).same_project(old(self)),
            final(self).tables() == apply_change(old(self).tables(), ChangeView::SkipFileNumber),
    {
        let ghost t = self.tables();
        self.rows.last_file_id = self.rows.last_file_id + 1;
        self.log(RowChange::SkipFileNumber);
        assert(self.tables() =~= apply_change(t, ChangeView::SkipFileNumber));
    }

    /// Replaces the context at a position by one of the same number and fingerprint.
    pub(crate) fn update_context(&mut self, at: usize, row: ContextRow)
        requires
            old(self).wf(),
            at < old(self).tables().contexts.len(),
            old(self).tables().contexts[at as int].id == row.id,
            old(self).tables().contexts[at as int].record.fingerprint == row@.record.fingerprint,
        ensures
            final(self).wf(),
            old(self).tables().linked() ==> final(self).tables().linked(),
            final(self).same_project(old(self)),
            final(self).tables() == apply_change(old(self).tables(), ChangeView::UpdateContext(row@)),
            final(self).journal() == old(self).journal().push(ChangeView::UpdateContext(row@)),
    {
        let ghost t = self.tables();
        let copy = ContextRow {
            id: row.id,
            record: copy_record(&row.record),
            first_seen_ms: row.first_seen_ms,
            last_seen_ms: row.last_seen_ms,
        };
        let ghost change = ChangeView::UpdateContext(row@);
        self.rows.contexts.set(at, row);
        self.log(RowChange::UpdateContext(copy));
        proof {
            let u = self.tables();
            assert forall|i: int| 0 <= i < t.contexts.len() && i != at implies (
            #[trigger] t.contexts[i]).id != row.id by {
                if i < at {
                    assert(t.contexts[i].id < t.contexts[at as int].id);
                } else {
                    assert(t.contexts[at as int].id < t.contexts[i].id);
                }
            }
            assert(u =~= apply_change(t, change));
            assert(forall|i: int|
                0 <= i < u.contexts.len() ==> (#[trigger] u.contexts[i]).id == t.contexts[i].id
                    && u.contexts[i].record.fingerprint == t.contexts[i].record.fingerprint);
            if t.linked() {
                assert forall|i: int| 0 <= i < u.files.len() implies has_context(
                    u.contexts,
                    (#[trigger] u.files[i]).context_id,
                ) by {
                    let j = choose|j: int|
                        0 <= j < t.contexts.len() && (#[trigger] t.contexts[j]).id
                            == t.files[i].context_id;
                    assert(u.contexts[j].id == t.contexts[j].id);
                }
            }
        }
    }

    /// Adds a file under the next number.
    pub(crate) fn insert_file(&mut self, context_id: i64, path: &str, seen_ms: i64) -> (id: i64)
        requires
            old(self).wf(),
            old(self).tables().last_file_id < i64::MAX,
            has_context(old(self).tables().contexts, context_id),
            forall|i: int|
                0 <= i < old(self).tables().files.len() ==> !((
                #[trigger] old(self).tables().files[i]).context_id == context_id && old(
                    self,
                ).tables().files[i].path == path@),
        ensures
            id == old(self).tables().last_file_id + 1,
            final(self).wf(),
            old(self).tables().linked() ==> final(self).tables().linked(),
            final(self).same_project(old(self)),
            ({
                let change = ChangeView::InsertFile(
                    FileView {
                        id,
                        context_id,
                        path: path@,
                        first_seen_ms: seen_ms,
                        last_seen_ms: seen_ms,
                    },
                );
                &&& final(self).tables() == apply_change(old(self).tables(), change)
                &&& final(self).journal() == old(self).journal().push(change)
            }),
    {
        let ghost t = self.tables();
        let id: i64 = self.rows.last_file_id + 1;
        let row = FileRow {
            id,
            context_id,
            path: path.to_owned(),
            first_seen_ms: seen_ms,
            last_seen_ms: seen_ms,
        };
        let copy = FileRow {
            id,
            context_id,
            path: path.to_owned(),
            first_seen_ms: seen_ms,
            last_seen_ms: seen_ms,
        };
        let ghost change = ChangeView::InsertFile(row@);
        self.rows.files.push(row);
        self.rows.last_file_id = id;
        self.log(RowChange::InsertFile(copy));
        proof {
            let u = self.tables();
            assert(u =~= apply_change(t, change));
            assert forall|i: int, j: int| 0 <= i < j < u.files.len() implies !((
            #[trigger] u.files[i]).context_id == (#[trigger] u.files[j]).context_id
                && u.files[i].path == u.files[j].path) by {
                assert(u.files[i] == t.files[i]);
                if j < t.files.len() {
                    assert(u.files[j] == t.files[j]);
                }
            }
            if t.linked() {
                assert forall|i: int| 0 <= i < u.revisions.len() implies has_file(
                    u.files,
                    (#[trigger] u.revisions[i]).file_id,
                ) by {
                    let j = choose|j: int|
                        0 <= j < t.files.len() && (#[trigger] t.files[j]).id == t.revisions[i].file_id;
                    assert(u.files[j] == t.files[j]);
                }
            }
        }
        id
    }

    /// Sets the times of the file at a position.
    pub(crate) fn update_file(&mut self, at: usize, first_seen_ms: i64, last_seen_ms: i64)
        requires
            old(self).wf(),
            at < old(self).tables().files.len(),
        ensures
            final(self).wf(),
            old(self).tables().linked() ==> final(self).tables().linked(),
            final(self).same_project(old(self)),
            ({
                let change = ChangeView::UpdateFile(
                    FileView {
                        first_seen_ms,
                        last_seen_ms,
                        ..old(self).tables().files[at as int]
                    },
                );
                &&& final(self).tables() == apply_change(old(self).tables(), change)
                &&& final(self).journal() == old(self).journal().push(change)
            }),
    {
        let ghost t = self.tables();
        let found = &self.rows.files[at];
        let row = FileRow {
            id: found.id,
            context_id: found.context_id,
            path: found.path.clone(),
            first_seen_ms,
            last_seen_ms,
        };
        let copy = FileRow {
            id: found.id,
            context_id: found.context_id,
            path: found.path.clone(),
            first_seen_ms,
            last_seen_ms,
        };
        let ghost change = ChangeView::UpdateFile(row@);
        self.rows.files.set(at, row);
        self.log(RowChange::UpdateFile(copy));
        proof {
            let u = self.tables();
            assert forall|i: int| 0 <= i < t.files.len() && i != at implies (
            #[trigger] t.files[i]).id != row.id by {
                if i < at {
                    assert(t.files[i].id < t.files[at as int].id);
                } else {
                    assert(t.files[at as int].id < t.files[i].id);
                }
            }
            assert(u =~= apply_change(t, change));
            assert(forall|i: int|
                0 <= i < u.files.len() ==> (#[trigger] u.files[i]).id == t.files[i].id
                    && u.files[i].context_id == t.files[i].context_id && u.files[i].path
                    == t.files[i].path);
            if t.linked() {
                assert forall|i: int| 0 <= i < u.revisions.len() implies has_file(
                    u.files,
                    (#[trigger] u.revisions[i]).file_id,
                ) by {
                    let j = choose|j: int|
                        0 <= j < t.files.len() && (#[trigger] t.files[j]).id == t.revisions[i].file_id;
                    assert(u.files[j].id == t.files[j].id);
                }
            }
        }
    }

    /// Adds a revision under the next number.
    pub(crate) fn insert_revision(&mut self, row: RevisionRow)
        requires
            old(self).wf(),
            row.id == old(self).tables().last_revision_id + 1,
            has_file(old(self).tables().files, row.file_id),
            forall|i: int|
                0 <= i < old(self).tables().revisions.len() ==> !((
                #[trigger] old(self).tables().revisions[i]).file_id == row.file_id && old(
                    self,
                ).tables().revisions[i].ordinal == row.ordinal),
            base_holds(old(self).tables().revisions, row@),
        ensures
            final(self).wf(),
            old(self).tables().linked() ==> final(self).tables().linked(),
            final(self).same_project(old(self)),
            final(self).tables() == apply_change(old(self).tables(), ChangeView::InsertRevision(row@)),
            final(self).journal() == old(self).journal().push(ChangeView::InsertRevision(row@)),
    {
        let ghost t = self.tables();
        let copy = copy_revision(&row);
        let ghost change = ChangeView::InsertRevision(row@);
        self.rows.last_revision_id = row.id;
        self.rows.revisions.push(row);
        self.log(RowChange::InsertRevision(copy));
        proof {
            let u = self.tables();
            assert(u =~= apply_change(t, change));
            assert forall|i: int, j: int| 0 <= i < j < u.revisions.len() implies !((
            #[trigger] u.revisions[i]).file_id == (#[trigger] u.revisions[j]).file_id
                && u.revisions[i].ordinal == u.revisions[j].ordinal) by {
                assert(u.revisions[i] == t.revisions[i]);
                if j < t.revisions.len() {
                    assert(u.revisions[j] == t.revisions[j]);
                }
            }
            if t.linked() {
                assert forall|i: int| 0 <= i < u.revisions.len() implies base_holds(
                    u.revisions,
                    #[trigger] u.revisions[i],
                ) by {
                    lemma_base_kept(t.revisions, u.revisions, u.revisions[i]);
                }
            }
        }
    }

    /// Replaces the revision at a position by one of the same number, file and ordinal.
    pub(crate) fn update_revision(&mut self, at: usize, row: RevisionRow)
        requires
            old(self).wf(),
            at < old(self).tables().revisions.len(),
            old(self).tables().revisions[at as int].id == row.id,
            old(self).tables().revisions[at as int].file_id == row.file_id,
            old(self).tables().revisions[at as int].ordinal == row.ordinal,
            base_holds(old(self).tables().revisions, row@),
        ensures
            final(self).wf(),
            old(self).tables().linked() ==> final(self).tables().linked(),
            final(self).same_project(old(self)),
            final(self).tables() == apply_change(old(self).tables(), ChangeView::UpdateRevision(row@)),
            final(self).journal() == old(self).journal().push(ChangeView::UpdateRevision(row@)),
            final(self).tables().revisions == old(self).tables().revisions.update(at as int, row@),
    {
        let ghost t = self.tables();
        let copy = copy_revision(&row);
        let ghost change = ChangeView::UpdateRevision(row@);
        self.rows.revisions.set(at, row);
        self.log(RowChange::UpdateRevision(copy));
        proof {
            let u = self.tables();
            assert forall|i: int| 0 <= i < t.revisions.len() && i != at implies (
            #[trigger] t.revisions[i]).id != row.id by {
                if i < at {
                    assert(t.revisions[i].id < t.revisions[at as int].id);
                } else {
                    assert(t.revisions[at as int].id < t.revisions[i].id);
                }
            }
            assert(u.revisions =~= t.revisions.update(at as int, row@));
            assert(u =~= apply_change(t, change));
            assert(forall|i: int|
                0 <= i < u.revisions.len() ==> (#[trigger] u.revisions[i]).id == t.revisions[i].id
                    && u.revisions[i].file_id == t.revisions[i].file_id && u.revisions[i].ordinal
                    == t.revisions[i].ordinal);
            if t.linked() {
                assert forall|i: int| 0 <= i < u.revisions.len() implies base_holds(
                    u.revisions,
                    #[trigger] u.revisions[i],
                ) by {
                    lemma_base_kept(t.revisions, u.revisions, u.revisions[i]);
                }
            }
        }
    }

    /// Removes the revision at a position; none rests on it any more.
    pub(crate) fn delete_revision(&mut self, at: usize)
        requires
            old(self).wf(),
            at < old(self).tables().revisions.len(),
        ensures
            final(self).wf(),
            old(self).tables().linked() ==> final(self).tables().linked(),
            final(self).same_project(old(self)),
            ({
                let change = ChangeView::DeleteRevision(old(self).tables().revisions[at as int].id);
                &&& final(self).tables() == apply_change(old(self).tables(), change)
                &&& final(self).journal() == old(self).journal().push(change)
            }),
            final(self).tables().revisions.len() == old(self).tables().revisions.len() - 1,
    {
        let ghost t = self.tables();
        let gone: i64 = self.rows.revisions[at].id;
        let ghost change = ChangeView::DeleteRevision(gone);
        let _removed = self.rows.revisions.remove(at);
        let ghost kept = t.revisions.remove(at as int);
        assert(revision_views(self.rows.revisions@) =~= kept);
        let ghost f = |x: RevisionView| unlinked(x, gone);
        let mut i: usize = 0;
        while i < self.rows.revisions.len()
            invariant
                i <= self.rows.revisions@.len() == kept.len(),
                f == (|x: RevisionView| unlinked(x, gone)),
                forall|j: int|
                    0 <= j < i ==> (#[trigger] self.rows.revisions@[j])@ == f(kept[j]),
                forall|j: int|
                    i <= j < kept.len() ==> (#[trigger] self.rows.revisions@[j])@ == kept[j],
                self.rows.contexts == old(self).rows.contexts,
                self.rows.files == old(self).rows.files,
                self.rows.watcher == old(self).rows.watcher,
                self.rows.last_context_id == old(self).rows.last_context_id,
                self.rows.last_file_id == old(self).rows.last_file_id,
                self.rows.last_revision_id == old(self).rows.last_revision_id,
                self.changes == old(self).changes,
                self.origin == old(self).origin,
                self.config == old(self).config,
                self.project_root == old(self).project_root,
            decreases self.rows.revisions@.len() - i,
        {
            if self.rows.revisions[i].base_revision_id == Some(gone) {
                let mut row = copy_revision(&self.rows.revisions[i]);
                row.base_revision_id = None;
                self.rows.revisions.set(i, row);
            }
            i += 1;
        }
        self.log(RowChange::DeleteRevision(gone));
        proof {
            let u = self.tables();
            lemma_without_at(t.revisions, at as int);
            assert(u.revisions =~= kept.map_values(f));
            assert(u =~= apply_change(t, change));
            lemma_deletion_keeps_order(t.revisions, at as int, t.last_revision_id);
            assert forall|i: int, j: int| 0 <= i < j < u.revisions.len() implies !((
            #[trigger] u.revisions[i]).file_id == (#[trigger] u.revisions[j]).file_id
                && u.revisions[i].ordinal == u.revisions[j].ordinal) by {
                let k = if i < at {
                    i
                } else {
                    i + 1
                };
                let m = if j < at {
                    j
                } else {
                    j + 1
                };
                assert(u.revisions[i] == unlinked(t.revisions[k], gone));
                assert(u.revisions[j] == unlinked(t.revisions[m], gone));
            }
            if t.linked() {
                assert forall|i: int| 0 <= i < u.revisions.len() implies {
                    &&& has_file(u.files, (#[trigger] u.revisions[i]).file_id)
                    &&& base_holds(u.revisions, u.revisions[i])
                } by {
                    let k = if i < at {
                        i
                    } else {
                        i + 1
                    };
                    assert(u.revisions[i] == unlinked(t.revisions[k], gone));
                    let r = t.revisions[k];
                    assert(has_file(t.files, r.file_id));
                    assert(base_holds(t.revisions, r));
                    if u.revisions[i].base_revision_id is Some {
                        let b = r.base_revision_id->Some_0;
                        let j = choose|j: int|
                            0 <= j < t.revisions.len() && (#[trigger] t.revisions[j]).id == b;
                        let m = if j < at {
                            j
                        } else {
                            j - 1
                        };
                        assert(j != at);
                        assert(u.revisions[m] == unlinked(t.revisions[j], gone));
                    }
                }
            }
        }
    }

    /// Sets the watcher's slot.
    pub(crate) fn set_watcher(&mut self, row: WatcherRow)
        requires
            old(self).wf(),
        ensures
            final(self).wf(),
            old(self).tables().linked() ==> final(self).tables().linked(),
            final(self).same_project(old(self)),
            final(self).tables() == apply_change(old(self).tables(), ChangeView::SetWatcher(row@)),
            final(self).journal() == old(self).journal().push(ChangeView::SetWatcher(row@)),
    {
        let ghost t = self.tables();
        let copy = WatcherRow {
            pid: row.pid,
            root_path: row.root_path.clone(),
            started_at_ms: row.started_at_ms,
            heartbeat_ms: row.heartbeat_ms,
        };
        let ghost change = ChangeView::SetWatcher(row@);
        self.rows.watcher = Some(row);
        self.log(RowChange::SetWatcher(copy));
        assert(self.tables() =~= apply_change(t, change));
    }
}

proof fn lemma_base_kept(before: Seq<RevisionView>, after: Seq<RevisionView>, r: RevisionView)
    requires
        base_holds(before, r),
        before.len() <= after.len(),
        forall|i: int|
            0 <= i < before.len() ==> (#[trigger] after[i]).id == before[i].id,
    ensures
        base_holds(after, r),
{
    if r.base_revision_id is Some {
        let b = r.base_revision_id->Some_0;
        let j = choose|j: int| 0 <= j < before.len() && (#[trigger] before[j]).id == b;
        assert(after[j].id == b);
    }
}

proof fn lemma_deletion_keeps_order(rs: Seq<RevisionView>, at: int, last: i64)
    requires
        0 <= at < rs.len(),
        revision_ids_ascend(rs, last),
    ensures
        revision_ids_ascend(
            rs.remove(at).map_values(|x: RevisionView| unlinked(x, rs[at].id)),
            last,
        ),
{
    let f = |x: RevisionView| unlinked(x, rs[at].id);
    let after = rs.remove(at).map_values(f);
    assert forall|i: int| 0 <= i < after.len() implies (#[trigger] after[i]).id == rs[if i < at {
        i
    } else {
        i + 1
    }].id by {}
}

} // verus!
