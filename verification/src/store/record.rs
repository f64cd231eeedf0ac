//! Recording what happens: contexts that are seen, contents that are saved, files that
//! go away, and the watcher's signs of life.
use sha2::Digest;
use vstd::arithmetic::div_mod::{lemma_fundamental_div_mod, lemma_mod_multiples_basic};
use vstd::prelude::*;
use vstd::slice::*;
use vstd::string::*;
use vstd::utf8::*;

use crate::delta::{create_patch, patch_outcome, patch_text, DeltaError};
use crate::git::RuntimeContext;
use crate::store::laws::{
    law_delete_is_read_back,
    law_known_text_is_read_back,
    law_text_is_read_back,
    law_text_keeps_other_states,
    lemma_same_newest,
};
use crate::store::lookup::{
    content_of,
    context_id_of,
    file_id_of,
    latest,
    lemma_context_id_of,
    lemma_file_id_of,
    lemma_latest_at,
    state_at,
};
use crate::store::rows::{
    copy_record,
    record_of,
    ChangeView,
    ContextRecord,
    ContextRow,
    ContextView,
    EventType,
    FileView,
    RecordView,
    RevisionRow,
    RevisionView,
    StorageKind,
    WatcherRow,
    WatcherView,
};
use crate::store::sound::{
    digest_tells,
    newest_reads_back,
    recorded_by,
    sound,
};
use crate::store::tables::{
    apply_change,
    base_holds,
    has_context,
    has_file,
    StoreError,
    Tables,
    TimelineStore,
};
use crate::text::{byte_len, opt_text, opt_text_is, size_of_text};

verus! {

/// The SHA-256 digest of the UTF-8 form of a text, in lower-case hexadecimal, as
/// `sha2::Sha256::digest` computes it.
pub uninterp spec fn sha256_hex(text: Seq<char>) -> Seq<char>;

/// `sha2::Sha256::digest` on the bytes of a text, written in hexadecimal. The digest
/// depends on the text alone.
#[verifier::external_body]
pub(crate) fn hash_text(content: &str) -> (digest: String)
    ensures
        digest@ == sha256_hex(content@),
{
    let digest = sha2::Sha256::digest(content.as_bytes());
    format!("{:x}", digest)
}

/// The later of two times.
pub open spec fn later(a: i64, b: i64) -> i64 {
    if a >= b {
        a
    } else {
        b
    }
}

/// The earlier of two times.
pub open spec fn earlier(a: i64, b: i64) -> i64 {
    if a <= b {
        a
    } else {
        b
    }
}

fn later_of(a: i64, b: i64) -> (m: i64)
    ensures
        m == later(a, b),
{
    if a >= b {
        a
    } else {
        b
    }
}

fn earlier_of(a: i64, b: i64) -> (m: i64)
    ensures
        m == earlier(a, b),
{
    if a <= b {
        a
    } else {
        b
    }
}

// ---------------------------------------------------------------------------
// What each recording makes of the tables
// ---------------------------------------------------------------------------

/// The tables with a context seen: a new row under the next number, or the row of the
/// fingerprint brought up to date. The next number is used up either way. The number of the
/// row comes with it.
pub open spec fn with_context(t: Tables, record: RecordView, seen_ms: i64) -> Result<
    (Tables, i64),
    StoreError,
> {
    if t.last_context_id == i64::MAX {
        Err(StoreError::NumbersExhausted)
    } else {
        let next = (t.last_context_id + 1) as i64;
        Ok(
            match context_id_of(t.contexts, record.fingerprint) {
                Some(id) => (
                    Tables {
                        contexts: t.contexts.map_values(
                            |c: ContextView|
                                if c.id == id {
                                    ContextView {
                                        id,
                                        record,
                                        first_seen_ms: earlier(c.first_seen_ms, seen_ms),
                                        last_seen_ms: later(c.last_seen_ms, seen_ms),
                                    }
                                } else {
                                    c
                                },
                        ),
                        last_context_id: next,
                        ..t
                    },
                    id,
                ),
                None => (
                    apply_change(
                        t,
                        ChangeView::InsertContext(
                            ContextView {
                                id: next,
                                record,
                                first_seen_ms: seen_ms,
                                last_seen_ms: seen_ms,
                            },
                        ),
                    ),
                    next,
                ),
            },
        )
    }
}

/// The tables with the context of a number last seen no earlier than at a time.
pub open spec fn with_context_seen(t: Tables, context_id: i64, seen_ms: i64) -> Tables {
    Tables {
        contexts: t.contexts.map_values(
            |c: ContextView|
                if c.id == context_id {
                    ContextView { last_seen_ms: later(c.last_seen_ms, seen_ms), ..c }
                } else {
                    c
                },
        ),
        ..t
    }
}

/// The tables with a file seen in a context: a new row under the next number, or the
/// times of its row widened. The next number is used up either way. The number of the row
/// comes with it.
pub open spec fn with_file(t: Tables, context_id: i64, path: Seq<char>, seen_ms: i64) -> Result<
    (Tables, i64),
    StoreError,
> {
    let next = (t.last_file_id + 1) as i64;
    if t.last_file_id == i64::MAX {
        Err(StoreError::NumbersExhausted)
    } else {
        match file_id_of(t.files, context_id, path) {
            Some(id) => Ok(
                (
                    Tables {
                        files: t.files.map_values(
                            |f: FileView|
                                if f.id == id {
                                    FileView {
                                        first_seen_ms: earlier(f.first_seen_ms, seen_ms),
                                        last_seen_ms: later(f.last_seen_ms, seen_ms),
                                        ..f
                                    }
                                } else {
                                    f
                                },
                        ),
                        last_file_id: next,
                        ..t
                    },
                    id,
                ),
            ),
            None => if !has_context(t.contexts, context_id) {
                Err(StoreError::UnknownContext(context_id))
            } else {
                Ok(
                    (
                        apply_change(
                            t,
                            ChangeView::InsertFile(
                                FileView {
                                    id: next,
                                    context_id,
                                    path,
                                    first_seen_ms: seen_ms,
                                    last_seen_ms: seen_ms,
                                },
                            ),
                        ),
                        next,
                    ),
                )
            },
        }
    }
}

/// The tables with the file of a number last seen at a time.
pub open spec fn with_file_seen(t: Tables, file_id: i64, seen_ms: i64) -> Tables {
    Tables {
        files: t.files.map_values(
            |f: FileView|
                if f.id == file_id {
                    FileView { last_seen_ms: seen_ms, ..f }
                } else {
                    f
                },
        ),
        ..t
    }
}

/// Whether a file's newest revision already holds this content.
pub open spec fn unchanged(newest: Option<RevisionView>, content: Seq<char>) -> bool {
    match newest {
        Some(r) => r.event_type != EventType::Delete && r.content_hash == Some(
            sha256_hex(content),
        ),
        None => false,
    }
}

/// The ordinal after a file's newest revision.
pub open spec fn next_ordinal(newest: Option<RevisionView>) -> int {
    match newest {
        Some(r) => r.ordinal + 1,
        None => 1,
    }
}

/// Whether a revision of a file has this ordinal.
pub open spec fn ordinal_taken(rs: Seq<RevisionView>, file_id: i64, ordinal: int) -> bool {
    exists|i: int|
        0 <= i < rs.len() && (#[trigger] rs[i]).file_id == file_id && rs[i].ordinal == ordinal
}

/// Whether a file was there after its newest revision.
pub open spec fn was_there(newest: Option<RevisionView>) -> bool {
    match newest {
        Some(r) => r.event_type != EventType::Delete,
        None => false,
    }
}

/// Whether a file is there, with another content than this.
pub open spec fn changes_held(newest: Option<RevisionView>, content: Seq<char>) -> bool {
    was_there(newest) && !unchanged(newest, content)
}

/// The number of the file of a context under a path; where there is none, the next number.
pub open spec fn file_number(t: Tables, path: Seq<char>, context_id: i64) -> i64 {
    match file_id_of(t.files, context_id, path) {
        Some(file_id) => file_id,
        None => (t.last_file_id + 1) as i64,
    }
}

/// Whether recording a content asks how far full copies lie apart: the file is there, with
/// another content.
pub open spec fn asks_interval(
    t: Tables,
    path: Seq<char>,
    content: Seq<char>,
    context_id: i64,
) -> bool {
    changes_held(latest(t.revisions, file_number(t, path, context_id)), content)
}

/// How many ordinals lie between two full copies.
pub open spec fn spacing(interval: i64) -> int {
    if interval < 0 {
        -interval
    } else {
        interval as int
    }
}

/// Whether new content is kept as a patch: the file was there, and the ordinal is not
/// one at which a full copy is due.
pub open spec fn kept_as_patch(newest: Option<RevisionView>, interval: i64) -> bool {
    was_there(newest) && next_ordinal(newest) % spacing(interval) != 0
}

/// The revision that records new content of a file.
pub open spec fn text_revision(
    id: i64,
    file_id: i64,
    newest: Option<RevisionView>,
    previous: Seq<char>,
    content: Seq<char>,
    recorded_at_ms: i64,
    interval: i64,
) -> RevisionView {
    let patch = kept_as_patch(newest, interval);
    RevisionView {
        id,
        file_id,
        ordinal: next_ordinal(newest) as i64,
        recorded_at_ms,
        event_type: if was_there(newest) {
            EventType::Modify
        } else {
            EventType::Create
        },
        storage_kind: if patch {
            StorageKind::Patch
        } else {
            StorageKind::Full
        },
        base_revision_id: if patch {
            Some(newest->Some_0.id)
        } else {
            None
        },
        content_hash: Some(sha256_hex(content)),
        size_bytes: Some(byte_len(content) as i64),
        payload: Some(
            if patch {
                encode_utf8(patch_text(previous, content))
            } else {
                encode_utf8(content)
            },
        ),
    }
}

/// The content that a patch of a file's new content starts from; nothing where the
/// content is kept in full.
pub open spec fn patch_start(
    rs: Seq<RevisionView>,
    newest: Option<RevisionView>,
    interval: i64,
) -> Result<Seq<char>, StoreError> {
    if kept_as_patch(newest, interval) {
        content_of(rs, newest->Some_0)
    } else {
        Ok(Seq::empty())
    }
}

/// The tables with one more revision, where its number and its ordinal are free.
pub open spec fn with_revision(t: Tables, r: RevisionView) -> Result<Tables, StoreError> {
    if t.last_revision_id == i64::MAX {
        Err(StoreError::NumbersExhausted)
    } else if ordinal_taken(t.revisions, r.file_id, r.ordinal as int) {
        Err(StoreError::OrdinalTaken)
    } else {
        Ok(apply_change(t, ChangeView::InsertRevision(r)))
    }
}

/// The tables with a file's content recorded, and whether that took a new revision: it
/// does unless the newest revision already holds the content.
pub open spec fn with_text(
    t: Tables,
    path: Seq<char>,
    content: Seq<char>,
    recorded_at_ms: i64,
    context_id: i64,
    interval: i64,
) -> Result<(Tables, bool), StoreError> {
    match with_file(with_context_seen(t, context_id, recorded_at_ms), context_id, path, recorded_at_ms) {
        Err(e) => Err(e),
        Ok((u, file_id)) => {
            let newest = latest(u.revisions, file_id);
            if unchanged(newest, content) {
                Ok((u, false))
            } else if next_ordinal(newest) > i64::MAX {
                Err(StoreError::NumbersExhausted)
            } else {
                match patch_start(u.revisions, newest, interval) {
                    Err(e) => Err(e),
                    Ok(previous) => {
                        let r = text_revision(
                            (u.last_revision_id + 1) as i64,
                            file_id,
                            newest,
                            previous,
                            content,
                            recorded_at_ms,
                            interval,
                        );
                        match with_revision(u, r) {
                            Err(e) => Err(e),
                            Ok(v) => Ok((v, true)),
                        }
                    },
                }
            }
        },
    }
}

/// The revision that records that a file went away.
pub open spec fn delete_revision_row(
    id: i64,
    file_id: i64,
    newest: Option<RevisionView>,
    recorded_at_ms: i64,
) -> RevisionView {
    RevisionView {
        id,
        file_id,
        ordinal: next_ordinal(newest) as i64,
        recorded_at_ms,
        event_type: EventType::Delete,
        storage_kind: StorageKind::Absent,
        base_revision_id: None,
        content_hash: None,
        size_bytes: None,
        payload: None,
    }
}

/// The tables with a file's end recorded, and whether that took a new revision: it does
/// where the file was there.
pub open spec fn with_delete(
    t: Tables,
    path: Seq<char>,
    recorded_at_ms: i64,
    context_id: i64,
) -> Result<(Tables, bool), StoreError> {
    let u = with_context_seen(t, context_id, recorded_at_ms);
    match file_id_of(u.files, context_id, path) {
        None => Ok((u, false)),
        Some(file_id) => {
            let v = with_file_seen(u, file_id, recorded_at_ms);
            let newest = latest(v.revisions, file_id);
            if !was_there(newest) {
                Ok((v, false))
            } else if next_ordinal(newest) > i64::MAX {
                Err(StoreError::NumbersExhausted)
            } else {
                let r = delete_revision_row(
                    (v.last_revision_id + 1) as i64,
                    file_id,
                    newest,
                    recorded_at_ms,
                );
                match with_revision(v, r) {
                    Err(e) => Err(e),
                    Ok(w) => Ok((w, true)),
                }
            }
        },
    }
}

/// The tables with a watcher's sign of life. The time at which it started is kept while
/// the process is the same.
pub open spec fn with_watcher(
    t: Tables,
    pid: i64,
    started_at_ms: i64,
    heartbeat_ms: i64,
    root: Seq<char>,
) -> Tables {
    apply_change(
        t,
        ChangeView::SetWatcher(
            WatcherView {
                pid,
                root_path: root,
                started_at_ms: match t.watcher {
                    Some(w) => if w.pid == pid {
                        w.started_at_ms
                    } else {
                        started_at_ms
                    },
                    None => started_at_ms,
                },
                heartbeat_ms,
            },
        ),
    )
}

// ---------------------------------------------------------------------------
// Recording
// ---------------------------------------------------------------------------

/// A row that may be missing.
pub open spec fn opt_revision(o: Option<&RevisionRow>) -> Option<RevisionView> {
    match o {
        Some(row) => Some(row@),
        None => None,
    }
}

/// Whether new content is kept as a patch.
fn patch_is_due(newest: Option<&RevisionRow>, interval: i64) -> (r: bool)
    requires
        interval != 0 || !was_there(opt_revision(newest)),
    ensures
        r == kept_as_patch(opt_revision(newest), interval),
{
    match newest {
        None => false,
        Some(row) => match row.event_type {
            EventType::Delete => false,
            _ => {
                let ordinal: i128 = if row.ordinal < -1 {
                    -(row.ordinal as i128 + 1)
                } else {
                    row.ordinal as i128 + 1
                };
                let spacing: i128 = if interval < 0 {
                    -(interval as i128)
                } else {
                    interval as i128
                };
                proof {
                    lemma_same_multiples(row.ordinal + 1, spacing as int);
                }
                ordinal % spacing != 0
            },
        },
    }
}

/// A number and its opposite are multiples of the same numbers.
proof fn lemma_same_multiples(n: int, d: int)
    requires
        d > 0,
    ensures
        (n % d == 0) == ((-n) % d == 0),
{
    if n % d == 0 {
        lemma_fundamental_div_mod(n, d);
        let q = n / d;
        assert(-n == (-q) * d) by (nonlinear_arith)
            requires
                n == d * q,
        ;
        lemma_mod_multiples_basic(-q, d);
    }
    if (-n) % d == 0 {
        lemma_fundamental_div_mod(-n, d);
        let q = (-n) / d;
        assert(n == (-q) * d) by (nonlinear_arith)
            requires
                -n == d * q,
        ;
        lemma_mod_multiples_basic(-q, d);
    }
}

/// Whether a file's newest revision already holds content with this digest.
fn holds_digest(newest: Option<&RevisionRow>, digest: &str) -> (r: bool)
    ensures
        r == (match newest {
            Some(row) => row.event_type != EventType::Delete && opt_text(row.content_hash) == Some(
                digest@,
            ),
            None => false,
        }),
{
    match newest {
        None => false,
        Some(row) => match row.event_type {
            EventType::Delete => false,
            _ => opt_text_is(&row.content_hash, digest),
        },
    }
}

impl TimelineStore {
    /// Notes that a context was seen, and gives its number.
    pub fn ensure_context(&mut self, context: &RuntimeContext, recorded_at_ms: i64) -> (res: Result<
        i64,
        StoreError,
    >)
        requires
            old(self).wf(),
        ensures
            final(self).wf(),
            old(self).tables().linked() ==> final(self).tables().linked(),
            final(self).same_project(old(self)),
            match res {
                Ok(id) => with_context(
                    old(self).tables(),
                    record_of(context@.project_root, context@.git),
                    recorded_at_ms,
                ) == Ok::<(Tables, i64), StoreError>((final(self).tables(), id)),
                Err(e) => {
                    &&& with_context(
                        old(self).tables(),
                        record_of(context@.project_root, context@.git),
                        recorded_at_ms,
                    ) == Err::<(Tables, i64), StoreError>(e)
                    &&& *final(self) == *old(self)
                },
            },
    {
        let record = ContextRecord::from_runtime(context);
        self.ensure_record(&record, recorded_at_ms)
    }

    /// Notes that a context was seen, and gives its number.
    pub(crate) fn ensure_record(&mut self, record: &ContextRecord, recorded_at_ms: i64) -> (res:
        Result<i64, StoreError>)
        requires
            old(self).wf(),
        ensures
            final(self).wf(),
            old(self).tables().linked() ==> final(self).tables().linked(),
            final(self).same_project(old(self)),
            match res {
                Ok(id) => with_context(old(self).tables(), record@, recorded_at_ms) == Ok::<
                    (Tables, i64),
                    StoreError,
                >((final(self).tables(), id)),
                Err(e) => {
                    &&& with_context(old(self).tables(), record@, recorded_at_ms) == Err::<
                        (Tables, i64),
                        StoreError,
                    >(e)
                    &&& *final(self) == *old(self)
                },
            },
    {
        let ghost t = self.tables();
        if self.last_context_id() == i64::MAX {
            return Err(StoreError::NumbersExhausted);
        }
        match self.context_at(record.fingerprint.as_str()) {
            Some(p) => {
                let rows = self.contexts();
                assert(t.contexts[p as int] == rows@[p as int]@);
                let id: i64 = rows[p].id;
                let row = ContextRow {
                    id,
                    record: copy_record(record),
                    first_seen_ms: earlier_of(rows[p].first_seen_ms, recorded_at_ms),
                    last_seen_ms: later_of(rows[p].last_seen_ms, recorded_at_ms),
                };
                self.update_context(p, row);
                self.skip_context_number();
                proof {
                    lemma_context_number_is_unique(t, p as int);
                    assert(self.tables() =~= with_context(t, record@, recorded_at_ms)->Ok_0.0);
                }
                Ok(id)
            },
            None => {
                proof {
                    lemma_context_id_of(t.contexts, record@.fingerprint);
                }
                let id: i64 = self.insert_context(record, recorded_at_ms);
                Ok(id)
            },
        }
    }

    /// Notes that the context at a position was seen.
    fn touch_context_seen(&mut self, at: usize, recorded_at_ms: i64)
        requires
            old(self).wf(),
            at < old(self).tables().contexts.len(),
        ensures
            final(self).wf(),
            old(self).tables().linked() ==> final(self).tables().linked(),
            final(self).same_project(old(self)),
            final(self).tables() == with_context_seen(
                old(self).tables(),
                old(self).tables().contexts[at as int].id,
                recorded_at_ms,
            ),
    {
        let ghost t = self.tables();
        let rows = self.contexts();
        assert(t.contexts[at as int] == rows@[at as int]@);
        let row = ContextRow {
            id: rows[at].id,
            record: copy_record(&rows[at].record),
            first_seen_ms: rows[at].first_seen_ms,
            last_seen_ms: later_of(rows[at].last_seen_ms, recorded_at_ms),
        };
        self.update_context(at, row);
        proof {
            lemma_context_number_is_unique(t, at as int);
            assert(self.tables() =~= with_context_seen(
                t,
                t.contexts[at as int].id,
                recorded_at_ms,
            ));
        }
    }

    /// Notes that a file was seen in a context, and gives its number.
    pub(crate) fn upsert_tracked_file(
        &mut self,
        context_id: i64,
        relative_path: &str,
        recorded_at_ms: i64,
    ) -> (res: Result<i64, StoreError>)
        requires
            old(self).wf(),
        ensures
            final(self).wf(),
            old(self).tables().linked() ==> final(self).tables().linked(),
            final(self).same_project(old(self)),
            match res {
                Ok(id) => {
                    &&& with_file(old(self).tables(), context_id, relative_path@, recorded_at_ms)
                        == Ok::<(Tables, i64), StoreError>((final(self).tables(), id))
                    &&& has_file(final(self).tables().files, id)
                },
                Err(e) => {
                    &&& with_file(old(self).tables(), context_id, relative_path@, recorded_at_ms)
                        == Err::<(Tables, i64), StoreError>(e)
                    &&& *final(self) == *old(self)
                },
            },
    {
        let ghost t = self.tables();
        if self.last_file_id() == i64::MAX {
            return Err(StoreError::NumbersExhausted);
        }
        match self.file_at(context_id, relative_path) {
            Some(p) => {
                let rows = self.files();
                assert(t.files[p as int] == rows@[p as int]@);
                let id: i64 = rows[p].id;
                let first: i64 = earlier_of(rows[p].first_seen_ms, recorded_at_ms);
                let last: i64 = later_of(rows[p].last_seen_ms, recorded_at_ms);
                self.update_file(p, first, last);
                self.skip_file_number();
                proof {
                    lemma_file_number_is_unique(t, p as int);
                    assert(self.tables() =~= with_file(
                        t,
                        context_id,
                        relative_path@,
                        recorded_at_ms,
                    )->Ok_0.0);
                    assert(self.tables().files[p as int].id == id);
                }
                Ok(id)
            },
            None => {
                if self.position_of_context(context_id).is_none() {
                    return Err(StoreError::UnknownContext(context_id));
                }
                proof {
                    lemma_file_id_of(t.files, context_id, relative_path@);
                }
                let id: i64 = self.insert_file(context_id, relative_path, recorded_at_ms);
                assert(self.tables().files[t.files.len() as int].id == id);
                Ok(id)
            },
        }
    }

    /// Whether a revision of a file has this ordinal.
    pub(crate) fn ordinal_is_taken(&self, file_id: i64, ordinal: i64) -> (r: bool)
        ensures
            r == ordinal_taken(self.tables().revisions, file_id, ordinal as int),
    {
        let rows = self.revisions();
        let ghost rs = self.tables().revisions;
        let mut i: usize = 0;
        while i < rows.len()
            invariant
                i <= rows@.len() == rs.len(),
                rs == self.tables().revisions,
                forall|j: int| 0 <= j < rs.len() ==> #[trigger] rs[j] == rows@[j]@,
                forall|j: int|
                    0 <= j < i ==> !((#[trigger] rs[j]).file_id == file_id && rs[j].ordinal
                        == ordinal),
            decreases rows@.len() - i,
        {
            assert(rs[i as int] == rows@[i as int]@);
            if rows[i].file_id == file_id && rows[i].ordinal == ordinal {
                return true;
            }
            i += 1;
        }
        false
    }

    /// The revision to add for new content of a file; nothing where the newest revision
    /// already holds it.
    fn next_text_revision(
        &self,
        file_id: i64,
        content: &str,
        recorded_at_ms: i64,
    ) -> (res: Result<Option<RevisionRow>, StoreError>)
        requires
            self.wf(),
            self.settings().full_snapshot_interval != 0 || !changes_held(
                latest(self.tables().revisions, file_id),
                content@,
            ),
        ensures
            ({
                let rs = self.tables().revisions;
                let interval = self.settings().full_snapshot_interval;
                let newest = latest(rs, file_id);
                match res {
                    Ok(None) => unchanged(newest, content@),
                    Ok(Some(row)) => {
                        &&& !unchanged(newest, content@)
                        &&& patch_start(rs, newest, interval) matches Ok(previous)
                        &&& row@ == text_revision(
                            (self.tables().last_revision_id + 1) as i64,
                            file_id,
                            newest,
                            previous,
                            content@,
                            recorded_at_ms,
                            interval,
                        )
                        &&& self.tables().last_revision_id < i64::MAX
                        &&& !ordinal_taken(rs, file_id, row.ordinal as int)
                        &&& row.id == self.tables().last_revision_id + 1
                        &&& row.ordinal == next_ordinal(newest)
                        &&& base_holds(rs, row@)
                        &&& kept_as_patch(newest, interval) ==> patch_outcome(
                            previous,
                            encode_utf8(patch_text(previous, content@)),
                        ) == Ok::<Seq<char>, DeltaError>(content@)
                    },
                    Err(e) => {
                        &&& !unchanged(newest, content@)
                        &&& if next_ordinal(newest) > i64::MAX {
                            e == StoreError::NumbersExhausted
                        } else {
                            match patch_start(rs, newest, interval) {
                                Err(f) => e == f,
                                Ok(_) => if self.tables().last_revision_id == i64::MAX {
                                    e == StoreError::NumbersExhausted
                                } else {
                                    &&& e == StoreError::OrdinalTaken
                                    &&& ordinal_taken(rs, file_id, next_ordinal(newest))
                                },
                            }
                        }
                    },
                }
            }),
    {
        let digest = hash_text(content);
        let found = self.latest_revision_at(file_id, i64::MAX);
        let rows = self.revisions();
        let ghost rs = self.tables().revisions;
        let newest: Option<&RevisionRow> = match found {
            Some(p) => {
                assert(rs[p as int] == rows@[p as int]@);
                Some(&rows[p])
            },
            None => None,
        };
        assert(opt_revision(newest) == latest(rs, file_id));
        if holds_digest(newest, digest.as_str()) {
            return Ok(None);
        }
        if let Some(row) = newest {
            if row.ordinal == i64::MAX {
                return Err(StoreError::NumbersExhausted);
            }
        }
        let interval: i64 = self.config().full_snapshot_interval;
        let patch = patch_is_due(newest, interval);
        let mut previous = String::new();
        if patch {
            match found {
                Some(p) => match self.content_at(p) {
                    Ok(text) => {
                        previous = text;
                    },
                    Err(e) => {
                        return Err(e);
                    },
                },
                None => {},
            }
        }
        assert(patch_start(rs, opt_revision(newest), interval) == Ok::<Seq<char>, StoreError>(
            previous@,
        ));
        if self.last_revision_id() == i64::MAX {
            return Err(StoreError::NumbersExhausted);
        }
        let id: i64 = self.last_revision_id() + 1;
        proof {
            lemma_latest_at(rs, file_id, i64::MAX);
        }
        let (ordinal, event_type): (i64, EventType) = match newest {
            None => (1, EventType::Create),
            Some(row) => (
                row.ordinal + 1,
                match row.event_type {
                    EventType::Delete => EventType::Create,
                    _ => EventType::Modify,
                },
            ),
        };
        if self.ordinal_is_taken(file_id, ordinal) {
            return Err(StoreError::OrdinalTaken);
        }
        let size: i64 = size_of_text(content) as i64;
        let row = if patch {
            RevisionRow {
                id,
                file_id,
                ordinal,
                recorded_at_ms,
                event_type,
                storage_kind: StorageKind::Patch,
                base_revision_id: match newest {
                    Some(base) => Some(base.id),
                    None => None,
                },
                content_hash: Some(digest),
                size_bytes: Some(size),
                payload: Some(create_patch(previous.as_str(), content)),
            }
        } else {
            RevisionRow {
                id,
                file_id,
                ordinal,
                recorded_at_ms,
                event_type,
                storage_kind: StorageKind::Full,
                base_revision_id: None,
                content_hash: Some(digest),
                size_bytes: Some(size),
                payload: Some(slice_to_vec(content.as_bytes())),
            }
        };
        proof {
            assert(row@.content_hash == Some(sha256_hex(content@)));
            assert(row@ =~= text_revision(
                id,
                file_id,
                latest(rs, file_id),
                previous@,
                content@,
                recorded_at_ms,
                interval,
            ));
        }
        Ok(Some(row))
    }

    /// Notes that the context of a number was seen, where there is one.
    fn note_context(&mut self, context_id: i64, recorded_at_ms: i64)
        requires
            old(self).wf(),
        ensures
            final(self).wf(),
            old(self).tables().linked() ==> final(self).tables().linked(),
            final(self).same_project(old(self)),
            final(self).tables() == with_context_seen(
                old(self).tables(),
                context_id,
                recorded_at_ms,
            ),
    {
        match self.position_of_context(context_id) {
            Some(p) => self.touch_context_seen(p, recorded_at_ms),
            None => {
                proof {
                    let t = self.tables();
                    let u = with_context_seen(t, context_id, recorded_at_ms);
                    assert forall|i: int| 0 <= i < t.contexts.len() implies t.contexts[i]
                        == u.contexts[i] by {
                        assert(t.contexts[i].id != context_id);
                    }
                    assert(t =~= u);
                }
            },
        }
    }

    /// Records the content of a file, and tells whether that took a new revision: it does
    /// unless the newest revision already holds the content. A failure changes nothing.
    pub fn record_text(
        &mut self,
        relative_path: &str,
        content: &str,
        recorded_at_ms: i64,
        context_id: i64,
    ) -> (res: Result<bool, StoreError>)
        requires
            old(self).wf(),
            old(self).settings().full_snapshot_interval != 0 || !asks_interval(
                old(self).tables(),
                relative_path@,
                content@,
                context_id,
            ),
        ensures
            final(self).wf(),
            old(self).tables().linked() ==> final(self).tables().linked(),
            final(self).same_project(old(self)),
            match res {
                Ok(added) => with_text(
                    old(self).tables(),
                    relative_path@,
                    content@,
                    recorded_at_ms,
                    context_id,
                    old(self).settings().full_snapshot_interval,
                ) == Ok::<(Tables, bool), StoreError>((final(self).tables(), added)),
                Err(e) => {
                    &&& with_text(
                        old(self).tables(),
                        relative_path@,
                        content@,
                        recorded_at_ms,
                        context_id,
                        old(self).settings().full_snapshot_interval,
                    ) == Err::<(Tables, bool), StoreError>(e)
                    &&& *final(self) == *old(self)
                },
            },
            old(self).tables().wf() && sound(old(self).tables()) ==> sound(final(self).tables()),
            // What was recorded is read back, unless something was recorded for the file at a
            // later time already. Where no revision was added, the newest one has to give back
            // the content whose digest it carries, and the digest has to tell it from others.
            res matches Ok(added) ==> old(self).tables().wf() && recorded_by(
                old(self).tables(),
                relative_path@,
                context_id,
                recorded_at_ms,
            ) && (added || (newest_reads_back(old(self).tables(), relative_path@, context_id)
                && digest_tells(old(self).tables(), relative_path@, context_id, content@)))
                ==> forall|at_ms: i64|
                at_ms >= recorded_at_ms ==> #[trigger] state_at(
                    final(self).tables(),
                    relative_path@,
                    at_ms,
                    context_id,
                ) == Ok::<Option<Seq<char>>, StoreError>(Some(content@)),
            // What was read before that time is still read.
            res is Ok && old(self).tables().wf() ==> forall|at_ms: i64|
                at_ms < recorded_at_ms ==> #[trigger] state_at(
                    final(self).tables(),
                    relative_path@,
                    at_ms,
                    context_id,
                ) == state_at(old(self).tables(), relative_path@, at_ms, context_id),
    {
        let ghost t = self.tables();
        let ghost interval = self.settings().full_snapshot_interval;
        proof {
            lemma_seen_keeps_numbers(t, context_id, recorded_at_ms);
        }
        if self.last_file_id() == i64::MAX {
            return Err(StoreError::NumbersExhausted);
        }
        let file_id: i64 = match self.tracked_file_id_by_path(context_id, relative_path) {
            Some(id) => id,
            None => {
                if self.position_of_context(context_id).is_none() {
                    return Err(StoreError::UnknownContext(context_id));
                }
                self.last_file_id() + 1
            },
        };
        let next = match self.next_text_revision(file_id, content, recorded_at_ms) {
            Ok(next) => next,
            Err(e) => {
                return Err(e);
            },
        };
        self.note_context(context_id, recorded_at_ms);
        match self.upsert_tracked_file(context_id, relative_path, recorded_at_ms) {
            Ok(_) => {},
            Err(e) => {
                assert(false);
                return Err(e);
            },
        }
        let added = next.is_some();
        match next {
            Some(row) => self.insert_revision(row),
            None => {},
        }
        proof {
            if t.wf() {
                lemma_same_newest(t, relative_path@, context_id, file_id);
            }
            if !t.wf() {
            } else if added {
                law_text_is_read_back(
                    t,
                    relative_path@,
                    content@,
                    recorded_at_ms,
                    context_id,
                    interval,
                );
            } else {
                law_known_text_is_read_back(
                    t,
                    relative_path@,
                    content@,
                    recorded_at_ms,
                    context_id,
                    interval,
                );
            }
            assert forall|at_ms: i64| t.wf() && at_ms < recorded_at_ms implies #[trigger] state_at(
                self.tables(),
                relative_path@,
                at_ms,
                context_id,
            ) == state_at(t, relative_path@, at_ms, context_id) by {
                law_text_keeps_other_states(
                    t,
                    relative_path@,
                    content@,
                    recorded_at_ms,
                    context_id,
                    interval,
                    relative_path@,
                    context_id,
                    at_ms,
                );
            }
        }
        Ok(added)
    }

    /// Records that a file went away, and tells whether that took a new revision: it does
    /// where the file was there. A failure changes nothing.
    pub fn record_delete(
        &mut self,
        relative_path: &str,
        recorded_at_ms: i64,
        context_id: i64,
    ) -> (res: Result<bool, StoreError>)
        requires
            old(self).wf(),
        ensures
            final(self).wf(),
            old(self).tables().linked() ==> final(self).tables().linked(),
            final(self).same_project(old(self)),
            match res {
                Ok(added) => with_delete(
                    old(self).tables(),
                    relative_path@,
                    recorded_at_ms,
                    context_id,
                ) == Ok::<(Tables, bool), StoreError>((final(self).tables(), added)),
                Err(e) => {
                    &&& with_delete(old(self).tables(), relative_path@, recorded_at_ms, context_id)
                        == Err::<(Tables, bool), StoreError>(e)
                    &&& *final(self) == *old(self)
                },
            },
            old(self).tables().wf() && sound(old(self).tables()) ==> sound(final(self).tables()),
            // From then on the file is not there, unless something was recorded for it at a
            // later time already.
            res is Ok && old(self).tables().wf() && recorded_by(
                old(self).tables(),
                relative_path@,
                context_id,
                recorded_at_ms,
            ) ==> forall|at_ms: i64|
                at_ms >= recorded_at_ms ==> #[trigger] state_at(
                    final(self).tables(),
                    relative_path@,
                    at_ms,
                    context_id,
                ) == Ok::<Option<Seq<char>>, StoreError>(None),
    {
        let ghost t = self.tables();
        proof {
            if t.wf() && with_delete(t, relative_path@, recorded_at_ms, context_id) is Ok {
                law_delete_is_read_back(t, relative_path@, recorded_at_ms, context_id);
            }
        }
        let ghost seen = with_context_seen(t, context_id, recorded_at_ms);
        let at: usize = match self.file_at(context_id, relative_path) {
            Some(p) => p,
            None => {
                self.note_context(context_id, recorded_at_ms);
                return Ok(false);
            },
        };
        let rows = self.files();
        assert(t.files[at as int] == rows@[at as int]@);
        let file_id: i64 = rows[at].id;
        let first_seen_ms: i64 = rows[at].first_seen_ms;
        let mut next: Option<RevisionRow> = None;
        match self.latest_revision_at(file_id, i64::MAX) {
            None => {},
            Some(p) => {
                let revisions = self.revisions();
                assert(t.revisions[p as int] == revisions@[p as int]@);
                let newest = &revisions[p];
                match newest.event_type {
                    EventType::Delete => {},
                    _ => {
                        if newest.ordinal == i64::MAX || self.last_revision_id() == i64::MAX {
                            return Err(StoreError::NumbersExhausted);
                        }
                        let ordinal: i64 = newest.ordinal + 1;
                        if self.ordinal_is_taken(file_id, ordinal) {
                            return Err(StoreError::OrdinalTaken);
                        }
                        let row = RevisionRow {
                            id: self.last_revision_id() + 1,
                            file_id,
                            ordinal,
                            recorded_at_ms,
                            event_type: EventType::Delete,
                            storage_kind: StorageKind::Absent,
                            base_revision_id: None,
                            content_hash: None,
                            size_bytes: None,
                            payload: None,
                        };
                        next = Some(row);
                    },
                }
            },
        }
        self.note_context(context_id, recorded_at_ms);
        assert(self.tables().files == t.files);
        self.update_file(at, first_seen_ms, recorded_at_ms);
        proof {
            lemma_file_number_is_unique(t, at as int);
            assert(self.tables() =~= with_file_seen(seen, file_id, recorded_at_ms));
            assert(self.tables().files[at as int].id == file_id);
        }
        match next {
            Some(row) => {
                self.insert_revision(row);
                Ok(true)
            },
            None => Ok(false),
        }
    }

    /// Notes a sign of life of the watcher.
    pub fn touch_watcher(
        &mut self,
        pid: i64,
        started_at_ms: i64,
        heartbeat_ms: i64,
        root: &str,
    )
        requires
            old(self).wf(),
        ensures
            final(self).wf(),
            old(self).tables().linked() ==> final(self).tables().linked(),
            final(self).same_project(old(self)),
            final(self).tables() == with_watcher(
                old(self).tables(),
                pid,
                started_at_ms,
                heartbeat_ms,
                root@,
            ),
    {
        let started: i64 = match self.watcher() {
            Some(w) => if w.pid == pid {
                w.started_at_ms
            } else {
                started_at_ms
            },
            None => started_at_ms,
        };
        let row = WatcherRow {
            pid,
            root_path: root.to_owned(),
            started_at_ms: started,
            heartbeat_ms,
        };
        self.set_watcher(row);
    }
}

/// Seeing a context leaves the numbers of the contexts, the files and the revisions.
pub proof fn lemma_seen_keeps_numbers(t: Tables, context_id: i64, seen_ms: i64)
    ensures
        ({
            let u = with_context_seen(t, context_id, seen_ms);
            &&& u.files == t.files
            &&& u.revisions == t.revisions
            &&& u.last_file_id == t.last_file_id
            &&& u.last_revision_id == t.last_revision_id
            &&& forall|id: i64| has_context(u.contexts, id) == has_context(t.contexts, id)
        }),
{
    let u = with_context_seen(t, context_id, seen_ms);
    assert forall|id: i64| has_context(u.contexts, id) == has_context(t.contexts, id) by {
        if has_context(t.contexts, id) {
            let i = choose|i: int| 0 <= i < t.contexts.len() && (#[trigger] t.contexts[i]).id == id;
            assert(u.contexts[i].id == id);
        }
        if has_context(u.contexts, id) {
            let i = choose|i: int| 0 <= i < u.contexts.len() && (#[trigger] u.contexts[i]).id == id;
            assert(t.contexts[i].id == id);
        }
    }
}

proof fn lemma_context_number_is_unique(t: Tables, at: int)
    requires
        t.keyed(),
        0 <= at < t.contexts.len(),
    ensures
        forall|i: int|
            0 <= i < t.contexts.len() && i != at ==> (#[trigger] t.contexts[i]).id
                != t.contexts[at].id,
{
    assert forall|i: int| 0 <= i < t.contexts.len() && i != at implies (#[trigger] t.contexts[i]).id
        != t.contexts[at].id by {
        if i < at {
            assert(t.contexts[i].id < t.contexts[at].id);
        } else {
            assert(t.contexts[at].id < t.contexts[i].id);
        }
    }
}

proof fn lemma_file_number_is_unique(t: Tables, at: int)
    requires
        t.keyed(),
        0 <= at < t.files.len(),
    ensures
        forall|i: int|
            0 <= i < t.files.len() && i != at ==> (#[trigger] t.files[i]).id != t.files[at].id,
{
    assert forall|i: int| 0 <= i < t.files.len() && i != at implies (#[trigger] t.files[i]).id
        != t.files[at].id by {
        if i < at {
            assert(t.files[i].id < t.files[at].id);
        } else {
            assert(t.files[at].id < t.files[i].id);
        }
    }
}

} // verus!
