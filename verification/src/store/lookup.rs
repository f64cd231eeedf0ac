//! Finding rows, and putting together the content that a revision stands for.
use vstd::prelude::*;
use vstd::string::*;
use vstd::utf8::*;

use crate::delta::{apply_patch, patch_outcome};
use crate::git::RuntimeContext;
use crate::store::rows::{
    copy_revision,
    revision_views,
    ContextView,
    EventType,
    FileView,
    RevisionRow,
    RevisionView,
    StorageKind,
};
use crate::store::tables::{
    has_context,
    position_of_revision,
    StoreError,
    Tables,
    TimelineStore,
};
use crate::text::{same_text, text_from_utf8};

verus! {

/// The number of the context with this fingerprint.
pub open spec fn context_id_of(cs: Seq<ContextView>, fingerprint: Seq<char>) -> Option<i64>
    decreases cs.len(),
{
    if cs.len() == 0 {
        None
    } else {
        match context_id_of(cs.drop_last(), fingerprint) {
            Some(id) => Some(id),
            None => if cs.last().record.fingerprint == fingerprint {
                Some(cs.last().id)
            } else {
                None
            },
        }
    }
}

/// The number of the file that a context tracks under this path.
pub open spec fn file_id_of(fs: Seq<FileView>, context_id: i64, path: Seq<char>) -> Option<i64>
    decreases fs.len(),
{
    if fs.len() == 0 {
        None
    } else {
        match file_id_of(fs.drop_last(), context_id, path) {
            Some(id) => Some(id),
            None => if fs.last().context_id == context_id && fs.last().path == path {
                Some(fs.last().id)
            } else {
                None
            },
        }
    }
}

/// The revision of this number.
pub open spec fn revision_of(rs: Seq<RevisionView>, id: i64) -> Option<RevisionView>
    decreases rs.len(),
{
    if rs.len() == 0 {
        None
    } else if rs.last().id == id {
        Some(rs.last())
    } else {
        revision_of(rs.drop_last(), id)
    }
}

/// Whether one revision was recorded after another; of two recorded at once, the one
/// with the higher number was.
pub open spec fn newer(a: RevisionView, b: RevisionView) -> bool {
    a.recorded_at_ms > b.recorded_at_ms || (a.recorded_at_ms == b.recorded_at_ms && a.id > b.id)
}

/// The newest revision of a file that was recorded at or before a time.
pub open spec fn latest_at(rs: Seq<RevisionView>, file_id: i64, at_ms: i64) -> Option<RevisionView>
    decreases rs.len(),
{
    if rs.len() == 0 {
        None
    } else {
        let r = rs.last();
        let best = latest_at(rs.drop_last(), file_id, at_ms);
        if r.file_id != file_id || r.recorded_at_ms > at_ms {
            best
        } else {
            match best {
                None => Some(r),
                Some(b) => if newer(r, b) {
                    Some(r)
                } else {
                    Some(b)
                },
            }
        }
    }
}

/// The newest revision of a file.
pub open spec fn latest(rs: Seq<RevisionView>, file_id: i64) -> Option<RevisionView> {
    latest_at(rs, file_id, i64::MAX)
}

// ---------------------------------------------------------------------------
// What the lookups find
// ---------------------------------------------------------------------------

/// What is found is a context with the fingerprint; nothing is found only where there is
/// none.
pub proof fn lemma_context_id_of(cs: Seq<ContextView>, fingerprint: Seq<char>)
    ensures
        match context_id_of(cs, fingerprint) {
            Some(id) => exists|i: int|
                0 <= i < cs.len() && (#[trigger] cs[i]).id == id && cs[i].record.fingerprint
                    == fingerprint,
            None => forall|i: int|
                0 <= i < cs.len() ==> (#[trigger] cs[i]).record.fingerprint != fingerprint,
        },
    decreases cs.len(),
{
    if cs.len() > 0 {
        let rest = cs.drop_last();
        lemma_context_id_of(rest, fingerprint);
        match context_id_of(rest, fingerprint) {
            Some(id) => {
                let i = choose|i: int|
                    0 <= i < rest.len() && (#[trigger] rest[i]).id == id
                        && rest[i].record.fingerprint == fingerprint;
                assert(cs[i] == rest[i]);
            },
            None => {
                assert(cs.last() == cs[cs.len() - 1]);
                assert forall|i: int| 0 <= i < cs.len() - 1 implies (
                #[trigger] cs[i]).record.fingerprint != fingerprint by {
                    assert(cs[i] == rest[i]);
                }
            },
        }
    }
}

/// What is found is a file of the context with the path; nothing is found only where
/// there is none.
pub proof fn lemma_file_id_of(fs: Seq<FileView>, context_id: i64, path: Seq<char>)
    ensures
        match file_id_of(fs, context_id, path) {
            Some(id) => exists|i: int|
                0 <= i < fs.len() && (#[trigger] fs[i]).id == id && fs[i].context_id == context_id
                    && fs[i].path == path,
            None => forall|i: int|
                0 <= i < fs.len() ==> !((#[trigger] fs[i]).context_id == context_id && fs[i].path
                    == path),
        },
    decreases fs.len(),
{
    if fs.len() > 0 {
        let rest = fs.drop_last();
        lemma_file_id_of(rest, context_id, path);
        match file_id_of(rest, context_id, path) {
            Some(id) => {
                let i = choose|i: int|
                    0 <= i < rest.len() && (#[trigger] rest[i]).id == id && rest[i].context_id
                        == context_id && rest[i].path == path;
                assert(fs[i] == rest[i]);
            },
            None => {
                assert(fs.last() == fs[fs.len() - 1]);
                assert forall|i: int| 0 <= i < fs.len() - 1 implies !((
                #[trigger] fs[i]).context_id == context_id && fs[i].path == path) by {
                    assert(fs[i] == rest[i]);
                }
            },
        }
    }
}

/// What is found has the number; nothing is found only where no row has it.
pub proof fn lemma_revision_of(rs: Seq<RevisionView>, id: i64)
    ensures
        match revision_of(rs, id) {
            Some(r) => r.id == id && exists|i: int| 0 <= i < rs.len() && #[trigger] rs[i] == r,
            None => forall|i: int| 0 <= i < rs.len() ==> (#[trigger] rs[i]).id != id,
        },
    decreases rs.len(),
{
    if rs.len() > 0 && rs.last().id != id {
        let rest = rs.drop_last();
        lemma_revision_of(rest, id);
        match revision_of(rest, id) {
            Some(r) => {
                let i = choose|i: int| 0 <= i < rest.len() && #[trigger] rest[i] == r;
                assert(rs[i] == r);
            },
            None => {
                assert forall|i: int| 0 <= i < rs.len() implies (#[trigger] rs[i]).id != id by {
                    if i < rs.len() - 1 {
                        assert(rs[i] == rest[i]);
                    }
                }
            },
        }
    } else if rs.len() > 0 {
        assert(rs[rs.len() - 1] == rs.last());
    }
}

/// Where numbers ascend, the row of a number is the one that is found under it.
pub proof fn lemma_revision_at(rs: Seq<RevisionView>, at: int)
    requires
        0 <= at < rs.len(),
        forall|i: int, j: int|
            0 <= i < j < rs.len() ==> (#[trigger] rs[i]).id < (#[trigger] rs[j]).id,
    ensures
        revision_of(rs, rs[at].id) == Some(rs[at]),
{
    lemma_revision_of(rs, rs[at].id);
    let r = revision_of(rs, rs[at].id)->Some_0;
    let i = choose|i: int| 0 <= i < rs.len() && #[trigger] rs[i] == r;
    if i < at {
        assert(rs[i].id < rs[at].id);
    } else if at < i {
        assert(rs[at].id < rs[i].id);
    }
}

/// What is found was recorded for the file by then, and nothing newer was; nothing is
/// found only where nothing was recorded by then.
pub proof fn lemma_latest_at(rs: Seq<RevisionView>, file_id: i64, at_ms: i64)
    ensures
        match latest_at(rs, file_id, at_ms) {
            Some(r) => {
                &&& r.file_id == file_id
                &&& r.recorded_at_ms <= at_ms
                &&& exists|i: int| 0 <= i < rs.len() && #[trigger] rs[i] == r
                &&& forall|i: int|
                    0 <= i < rs.len() && (#[trigger] rs[i]).file_id == file_id
                        && rs[i].recorded_at_ms <= at_ms ==> !newer(rs[i], r)
            },
            None => forall|i: int|
                0 <= i < rs.len() ==> !((#[trigger] rs[i]).file_id == file_id
                    && rs[i].recorded_at_ms <= at_ms),
        },
    decreases rs.len(),
{
    if rs.len() > 0 {
        let rest = rs.drop_last();
        lemma_latest_at(rest, file_id, at_ms);
        let last = rs.last();
        assert(rs[rs.len() - 1] == last);
        match latest_at(rs, file_id, at_ms) {
            Some(r) => {
                if latest_at(rest, file_id, at_ms) == Some(r) {
                    let i = choose|i: int| 0 <= i < rest.len() && #[trigger] rest[i] == r;
                    assert(rs[i] == r);
                }
                assert forall|i: int|
                    0 <= i < rs.len() && (#[trigger] rs[i]).file_id == file_id
                        && rs[i].recorded_at_ms <= at_ms implies !newer(rs[i], r) by {
                    if i < rs.len() - 1 {
                        assert(rest[i] == rs[i]);
                    }
                }
            },
            None => {
                assert forall|i: int| 0 <= i < rs.len() implies !((#[trigger] rs[i]).file_id
                    == file_id && rs[i].recorded_at_ms <= at_ms) by {
                    if i < rs.len() - 1 {
                        assert(rest[i] == rs[i]);
                    }
                }
            },
        }
    }
}

/// A revision of the file, recorded by then, that nothing recorded by then is newer than
/// is the one that is found.
pub proof fn lemma_latest_is(rs: Seq<RevisionView>, file_id: i64, at_ms: i64, at: int)
    requires
        0 <= at < rs.len(),
        rs[at].file_id == file_id,
        rs[at].recorded_at_ms <= at_ms,
        forall|i: int, j: int|
            0 <= i < j < rs.len() ==> (#[trigger] rs[i]).id < (#[trigger] rs[j]).id,
        forall|i: int|
            0 <= i < rs.len() && (#[trigger] rs[i]).file_id == file_id && rs[i].recorded_at_ms
                <= at_ms ==> !newer(rs[i], rs[at]),
    ensures
        latest_at(rs, file_id, at_ms) == Some(rs[at]),
{
    lemma_latest_at(rs, file_id, at_ms);
    let r = latest_at(rs, file_id, at_ms)->Some_0;
    let i = choose|i: int| 0 <= i < rs.len() && #[trigger] rs[i] == r;
    assert(!newer(rs[at], r));
    assert(!newer(rs[i], rs[at]));
    if i < at {
        assert(rs[i].id < rs[at].id);
    } else if at < i {
        assert(rs[at].id < rs[i].id);
    }
}

// ---------------------------------------------------------------------------
// Content
// ---------------------------------------------------------------------------

/// What a revision makes of the content before it. A full revision needs none.
pub open spec fn step(r: RevisionView, before: Seq<char>) -> Result<Seq<char>, StoreError> {
    match r.storage_kind {
        StorageKind::Full => match r.payload {
            None => Err(StoreError::MissingFullPayload(r.id)),
            Some(bytes) => if valid_utf8(bytes) {
                Ok(decode_utf8(bytes))
            } else {
                Err(StoreError::InvalidUtf8(r.id))
            },
        },
        StorageKind::Patch => match r.payload {
            None => Err(StoreError::MissingPatchPayload(r.id)),
            Some(bytes) => match patch_outcome(before, bytes) {
                Ok(text) => Ok(text),
                Err(e) => Err(StoreError::Delta(e)),
            },
        },
        StorageKind::Absent => Err(StoreError::NoContent(r.id)),
    }
}

/// The content of a chain of revisions, newest first: the oldest starts, and each of the
/// others changes what is there.
pub open spec fn materialized(chain: Seq<RevisionView>) -> Result<Seq<char>, StoreError>
    decreases chain.len(),
{
    if chain.len() == 0 {
        Ok(Seq::empty())
    } else {
        match materialized(chain.drop_first()) {
            Ok(before) => step(chain[0], before),
            Err(e) => Err(e),
        }
    }
}

/// The numbers of revisions.
pub open spec fn numbers_of(rs: Seq<RevisionView>) -> Set<i64> {
    rs.map_values(|r: RevisionView| r.id).to_set()
}

/// The chain of bases from a revision down to a full one, newest first. `asked` is the
/// number of the revision whose content is wanted, and `passed` holds the numbers that the
/// chain has passed on the way, that of `r` among them.
pub open spec fn chain_of(
    rs: Seq<RevisionView>,
    r: RevisionView,
    asked: i64,
    passed: Set<i64>,
) -> Result<Seq<RevisionView>, StoreError>
    decreases numbers_of(rs).difference(passed).len(),
    via chain_of_decreases
{
    if r.storage_kind == StorageKind::Full {
        Ok(seq![r])
    } else {
        match r.base_revision_id {
            None => Err(StoreError::MissingBase(asked)),
            Some(b) => match revision_of(rs, b) {
                Some(base) => if passed.contains(b) {
                    Err(StoreError::BaseLoop(asked))
                } else {
                    match chain_of(rs, base, asked, passed.insert(b)) {
                        Ok(rest) => Ok(seq![r] + rest),
                        Err(e) => Err(e),
                    }
                },
                None => Err(StoreError::MissingBaseRevision(b)),
            },
        }
    }
}

#[via_fn]
proof fn chain_of_decreases(
    rs: Seq<RevisionView>,
    r: RevisionView,
    asked: i64,
    passed: Set<i64>,
) {
    if r.base_revision_id is Some {
        let b = r.base_revision_id->Some_0;
        if revision_of(rs, b) is Some && !passed.contains(b) {
            lemma_unpassed(rs, b, passed);
        }
    }
}

/// There are fewer numbers left once one more is passed.
pub proof fn lemma_unpassed(rs: Seq<RevisionView>, b: i64, passed: Set<i64>)
    requires
        revision_of(rs, b) is Some,
        !passed.contains(b),
    ensures
        numbers_of(rs).difference(passed.insert(b)).len() < numbers_of(rs).difference(passed).len(),
{
    lemma_revision_of(rs, b);
    let ids = rs.map_values(|r: RevisionView| r.id);
    let i = choose|i: int| 0 <= i < rs.len() && #[trigger] rs[i] == revision_of(rs, b)->Some_0;
    assert(ids[i] == b);
    ids.lemma_cardinality_of_set();
    let left = numbers_of(rs).difference(passed);
    assert(numbers_of(rs).finite());
    vstd::set_lib::lemma_len_subset(left, numbers_of(rs));
    assert(left.contains(b));
    assert(numbers_of(rs).difference(passed.insert(b)) =~= left.remove(b));
}

/// The chain of bases from a revision, of which nothing was passed yet.
pub open spec fn whole_chain(rs: Seq<RevisionView>, r: RevisionView) -> Result<
    Seq<RevisionView>,
    StoreError,
> {
    chain_of(rs, r, r.id, set![r.id])
}

/// The content that a revision stands for.
pub open spec fn content_of(rs: Seq<RevisionView>, r: RevisionView) -> Result<
    Seq<char>,
    StoreError,
> {
    if r.event_type == EventType::Delete {
        Err(StoreError::DeletedRevision(r.id))
    } else {
        match whole_chain(rs, r) {
            Ok(chain) => materialized(chain),
            Err(e) => Err(e),
        }
    }
}

/// The content of the revision of this number.
pub open spec fn reconstructed(rs: Seq<RevisionView>, id: i64) -> Result<Seq<char>, StoreError> {
    match revision_of(rs, id) {
        None => Err(StoreError::MissingRevision(id)),
        Some(r) => content_of(rs, r),
    }
}

/// The content that a file had at a time, by what was recorded until then: nothing where
/// the file was not there.
pub open spec fn state_at(t: Tables, path: Seq<char>, at_ms: i64, context_id: i64) -> Result<
    Option<Seq<char>>,
    StoreError,
> {
    match file_id_of(t.files, context_id, path) {
        None => Ok(None),
        Some(file_id) => match latest_at(t.revisions, file_id, at_ms) {
            None => Ok(None),
            Some(r) => if r.event_type == EventType::Delete {
                Ok(None)
            } else {
                match content_of(t.revisions, r) {
                    Ok(text) => Ok(Some(text)),
                    Err(e) => Err(e),
                }
            },
        },
    }
}

/// What a file held at a time in the context of a fingerprint, which may not have a number.
pub open spec fn state_in(
    t: Tables,
    fingerprint: Seq<char>,
    path: Seq<char>,
    at_ms: i64,
) -> Result<Option<Seq<char>>, StoreError> {
    match context_id_of(t.contexts, fingerprint) {
        Some(id) => state_at(t, path, at_ms, id),
        None => Ok(None),
    }
}

/// Whether some row has this number.
fn holds_number(rows: &Vec<RevisionRow>, id: i64) -> (r: bool)
    ensures
        r == exists|i: int| 0 <= i < rows@.len() && (#[trigger] rows@[i]).id == id,
{
    let mut i: usize = 0;
    while i < rows.len()
        invariant
            i <= rows@.len(),
            forall|j: int| 0 <= j < i ==> (#[trigger] rows@[j]).id != id,
        decreases rows@.len() - i,
    {
        if rows[i].id == id {
            return true;
        }
        i += 1;
    }
    false
}

/// The content of a chain of revisions, newest first.
pub fn materialize_chain(chain: &Vec<RevisionRow>) -> (res: Result<String, StoreError>)
    ensures
        match res {
            Ok(text) => materialized(revision_views(chain@)) == Ok::<Seq<char>, StoreError>(text@),
            Err(e) => materialized(revision_views(chain@)) == Err::<Seq<char>, StoreError>(e),
        },
{
    let ghost all = revision_views(chain@);
    let mut current = String::new();
    let mut k: usize = chain.len();
    assert(all.skip(k as int) =~= Seq::empty());
    while k > 0
        invariant
            k <= chain@.len(),
            all == revision_views(chain@),
            materialized(all.skip(k as int)) == Ok::<Seq<char>, StoreError>(current@),
        decreases k,
    {
        let row = &chain[k - 1];
        proof {
            assert(all.skip(k - 1).drop_first() =~= all.skip(k as int));
            assert(all.skip(k - 1)[0] == row@);
        }
        let next: Result<String, StoreError> = match row.storage_kind {
            StorageKind::Full => match &row.payload {
                None => Err(StoreError::MissingFullPayload(row.id)),
                Some(bytes) => match text_from_utf8(
                    vstd::slice::slice_to_vec(bytes.as_slice()),
                ) {
                    Some(text) => Ok(text),
                    None => Err(StoreError::InvalidUtf8(row.id)),
                },
            },
            StorageKind::Patch => match &row.payload {
                None => Err(StoreError::MissingPatchPayload(row.id)),
                Some(bytes) => match apply_patch(current.as_str(), bytes.as_slice()) {
                    Ok(text) => Ok(text),
                    Err(e) => Err(StoreError::Delta(e)),
                },
            },
            StorageKind::Absent => Err(StoreError::NoContent(row.id)),
        };
        match next {
            Ok(text) => {
                current = text;
                k -= 1;
            },
            Err(e) => {
                proof {
                    lemma_materialized_fails(all, k - 1, e);
                }
                return Err(e);
            },
        }
    }
    assert(all.skip(0) =~= all);
    Ok(current)
}

proof fn lemma_materialized_fails(chain: Seq<RevisionView>, k: int, e: StoreError)
    requires
        0 <= k <= chain.len(),
        materialized(chain.skip(k)) == Err::<Seq<char>, StoreError>(e),
    ensures
        materialized(chain) == Err::<Seq<char>, StoreError>(e),
    decreases k,
{
    if k == 0 {
        assert(chain.skip(0) =~= chain);
    } else {
        assert(chain.skip(k - 1).drop_first() =~= chain.skip(k));
        lemma_materialized_fails(chain, k - 1, e);
    }
}

impl TimelineStore {
    /// The position of the context with this fingerprint.
    pub(crate) fn context_at(&self, fingerprint: &str) -> (res: Option<usize>)
        ensures
            match res {
                Some(p) => {
                    let cs = self.tables().contexts;
                    &&& p < cs.len()
                    &&& cs[p as int].record.fingerprint == fingerprint@
                    &&& context_id_of(cs, fingerprint@) == Some(cs[p as int].id)
                },
                None => context_id_of(self.tables().contexts, fingerprint@) is None,
            },
    {
        let rows = self.contexts();
        let ghost cs = self.tables().contexts;
        let mut i: usize = 0;
        while i < rows.len()
            invariant
                i <= rows@.len() == cs.len(),
                cs == self.tables().contexts,
                forall|j: int| 0 <= j < cs.len() ==> #[trigger] cs[j] == rows@[j]@,
                context_id_of(cs.take(i as int), fingerprint@) is None,
            decreases rows@.len() - i,
        {
            assert(cs.take(i + 1).drop_last() =~= cs.take(i as int));
            assert(cs[i as int] == rows@[i as int]@);
            if same_text(rows[i].record.fingerprint.as_str(), fingerprint) {
                proof {
                    lemma_first_context_stays(cs, fingerprint@, i + 1);
                }
                return Some(i);
            }
            i += 1;
        }
        assert(cs.take(i as int) =~= cs);
        None
    }

    /// The number of the context that is active now, where it has one.
    pub fn resolve_context_id(&self, context: &RuntimeContext) -> (res: Option<i64>)
        ensures
            res == context_id_of(self.tables().contexts, context@.fingerprint),
    {
        match self.context_at(context.fingerprint()) {
            Some(p) => {
                let rows = self.contexts();
                assert(self.tables().contexts[p as int] == rows@[p as int]@);
                Some(rows[p].id)
            },
            None => None,
        }
    }

    /// Whether some context has this number.
    pub(crate) fn position_of_context(&self, id: i64) -> (res: Option<usize>)
        ensures
            match res {
                Some(p) => p < self.tables().contexts.len() && self.tables().contexts[p as int].id
                    == id,
                None => !has_context(self.tables().contexts, id),
            },
    {
        let rows = self.contexts();
        let ghost cs = self.tables().contexts;
        let mut i: usize = 0;
        while i < rows.len()
            invariant
                i <= rows@.len() == cs.len(),
                cs == self.tables().contexts,
                forall|j: int| 0 <= j < cs.len() ==> #[trigger] cs[j] == rows@[j]@,
                forall|j: int| 0 <= j < i ==> (#[trigger] cs[j]).id != id,
            decreases rows@.len() - i,
        {
            assert(cs[i as int] == rows@[i as int]@);
            if rows[i].id == id {
                return Some(i);
            }
            i += 1;
        }
        None
    }

    /// The position of the file that a context tracks under this path.
    pub(crate) fn file_at(&self, context_id: i64, path: &str) -> (res: Option<usize>)
        ensures
            match res {
                Some(p) => {
                    let fs = self.tables().files;
                    &&& p < fs.len()
                    &&& fs[p as int].context_id == context_id
                    &&& fs[p as int].path == path@
                    &&& file_id_of(fs, context_id, path@) == Some(fs[p as int].id)
                },
                None => file_id_of(self.tables().files, context_id, path@) is None,
            },
    {
        let rows = self.files();
        let ghost fs = self.tables().files;
        let mut i: usize = 0;
        while i < rows.len()
            invariant
                i <= rows@.len() == fs.len(),
                fs == self.tables().files,
                forall|j: int| 0 <= j < fs.len() ==> #[trigger] fs[j] == rows@[j]@,
                file_id_of(fs.take(i as int), context_id, path@) is None,
            decreases rows@.len() - i,
        {
            assert(fs.take(i + 1).drop_last() =~= fs.take(i as int));
            assert(fs[i as int] == rows@[i as int]@);
            if rows[i].context_id == context_id && same_text(rows[i].path.as_str(), path) {
                proof {
                    lemma_first_file_stays(fs, context_id, path@, i + 1);
                }
                return Some(i);
            }
            i += 1;
        }
        assert(fs.take(i as int) =~= fs);
        None
    }

    /// The number of the file that a context tracks under this path.
    pub(crate) fn tracked_file_id_by_path(&self, context_id: i64, path: &str) -> (res: Option<i64>)
        ensures
            res == file_id_of(self.tables().files, context_id, path@),
    {
        match self.file_at(context_id, path) {
            Some(p) => {
                let rows = self.files();
                assert(self.tables().files[p as int] == rows@[p as int]@);
                Some(rows[p].id)
            },
            None => None,
        }
    }

    /// The newest revision of a file that was recorded at or before a time.
    pub(crate) fn latest_revision_at(&self, file_id: i64, at_ms: i64) -> (res: Option<usize>)
        ensures
            match res {
                Some(p) => p < self.tables().revisions.len() && latest_at(
                    self.tables().revisions,
                    file_id,
                    at_ms,
                ) == Some(self.tables().revisions[p as int]),
                None => latest_at(self.tables().revisions, file_id, at_ms) is None,
            },
    {
        let rows = self.revisions();
        let ghost rs = self.tables().revisions;
        let mut best: Option<usize> = None;
        let mut i: usize = 0;
        while i < rows.len()
            invariant
                i <= rows@.len() == rs.len(),
                rs == self.tables().revisions,
                forall|j: int| 0 <= j < rs.len() ==> #[trigger] rs[j] == rows@[j]@,
                match best {
                    Some(p) => p < i && latest_at(rs.take(i as int), file_id, at_ms) == Some(
                        rs[p as int],
                    ),
                    None => latest_at(rs.take(i as int), file_id, at_ms) is None,
                },
            decreases rows@.len() - i,
        {
            assert(rs.take(i + 1).drop_last() =~= rs.take(i as int));
            assert(rs[i as int] == rows@[i as int]@);
            let row = &rows[i];
            if row.file_id == file_id && row.recorded_at_ms <= at_ms {
                match best {
                    None => {
                        best = Some(i);
                    },
                    Some(p) => {
                        assert(rs[p as int] == rows@[p as int]@);
                        let b = &rows[p];
                        if row.recorded_at_ms > b.recorded_at_ms || (row.recorded_at_ms
                            == b.recorded_at_ms && row.id > b.id) {
                            best = Some(i);
                        }
                    },
                }
            }
            i += 1;
        }
        assert(rs.take(i as int) =~= rs);
        best
    }

    /// The position of the revision of this number.
    pub(crate) fn load_revision_by_id(&self, id: i64) -> (res: Option<usize>)
        requires
            self.tables().keyed(),
        ensures
            match res {
                Some(p) => p < self.tables().revisions.len() && revision_of(
                    self.tables().revisions,
                    id,
                ) == Some(self.tables().revisions[p as int]),
                None => revision_of(self.tables().revisions, id) is None,
            },
    {
        let rows = self.revisions();
        let ghost rs = self.tables().revisions;
        proof {
            assert forall|i: int, j: int| 0 <= i < j < rows@.len() implies (
            #[trigger] rows@[i]).id < (#[trigger] rows@[j]).id by {
                assert(rs[i].id < rs[j].id);
            }
            lemma_revision_of(rs, id);
        }
        let res = position_of_revision(rows, id);
        proof {
            match res {
                Some(p) => {
                    assert(rs[p as int] == rows@[p as int]@);
                    lemma_revision_at(rs, p as int);
                },
                None => {
                    assert(forall|i: int| 0 <= i < rs.len() ==> (#[trigger] rs[i]).id == rows@[i].id);
                },
            }
        }
        res
    }

    /// The chain of bases from the revision at a position down to a full one.
    fn revision_chain(&self, at: usize) -> (res: Result<Vec<RevisionRow>, StoreError>)
        requires
            self.tables().keyed(),
            at < self.tables().revisions.len(),
        ensures
            ({
                let rs = self.tables().revisions;
                let r = rs[at as int];
                match res {
                    Ok(chain) => whole_chain(rs, r) == Ok::<Seq<RevisionView>, StoreError>(
                        revision_views(chain@),
                    ),
                    Err(e) => whole_chain(rs, r) == Err::<Seq<RevisionView>, StoreError>(e),
                }
            }),
    {
        let rows = self.revisions();
        let ghost rs = self.tables().revisions;
        let ghost first = rs[at as int];
        let asked: i64 = rows[at].id;
        let mut chain: Vec<RevisionRow> = Vec::new();
        let mut p: usize = at;
        let ghost mut passed: Set<i64> = set![first.id];
        assert(rs[at as int] == rows@[at as int]@);
        chain.push(copy_revision(&rows[at]));
        assert(revision_views(chain@) =~= seq![first]);
        assert(chain@[0].id == first.id);
        proof {
            if whole_chain(rs, first) is Ok {
                let rest = whole_chain(rs, first)->Ok_0;
                assert(revision_views(chain@).drop_last() + rest =~= rest);
            }
        }
        while chain[chain.len() - 1].storage_kind != StorageKind::Full
            invariant
                self.tables().keyed(),
                rs == self.tables().revisions,
                revision_views(rows@) == rs,
                p < rs.len(),
                at < rs.len(),
                first == rs[at as int],
                asked == first.id,
                chain@.len() > 0,
                chain@.last()@ == rs[p as int],
                forall|id: i64| #[trigger]
                    passed.contains(id) <==> exists|i: int|
                        0 <= i < chain@.len() && (#[trigger] chain@[i]).id == id,
                match chain_of(rs, rs[p as int], asked, passed) {
                    Ok(rest) => whole_chain(rs, first) == Ok::<Seq<RevisionView>, StoreError>(
                        revision_views(chain@).drop_last() + rest,
                    ),
                    Err(e) => whole_chain(rs, first) == Err::<Seq<RevisionView>, StoreError>(e),
                },
            decreases numbers_of(rs).difference(passed).len(),
        {
            let ghost before = revision_views(chain@);
            assert(chain@[chain@.len() - 1] == chain@.last());
            let b: i64 = match chain[chain.len() - 1].base_revision_id {
                None => {
                    return Err(StoreError::MissingBase(asked));
                },
                Some(b) => b,
            };
            let q: usize = match self.load_revision_by_id(b) {
                None => {
                    return Err(StoreError::MissingBaseRevision(b));
                },
                Some(q) => q,
            };
            if holds_number(&chain, b) {
                return Err(StoreError::BaseLoop(asked));
            }
            let ghost rows_before = chain@;
            proof {
                lemma_revision_of(rs, b);
                lemma_unpassed(rs, b, passed);
                assert(rs[q as int] == rows@[q as int]@);
            }
            chain.push(copy_revision(&rows[q]));
            proof {
                assert(revision_views(chain@).drop_last() =~= before);
                assert(chain@[rows_before.len() as int].id == b);
                assert forall|id: i64| #[trigger]
                    passed.insert(b).contains(id) <==> exists|i: int|
                        0 <= i < chain@.len() && (#[trigger] chain@[i]).id == id by {
                    if passed.contains(id) {
                        let i = choose|i: int|
                            0 <= i < rows_before.len() && (#[trigger] rows_before[i]).id == id;
                        assert(chain@[i] == rows_before[i]);
                    }
                    if exists|i: int| 0 <= i < chain@.len() && (#[trigger] chain@[i]).id == id {
                        let i = choose|i: int|
                            0 <= i < chain@.len() && (#[trigger] chain@[i]).id == id;
                        if i < rows_before.len() {
                            assert(chain@[i] == rows_before[i]);
                        }
                    }
                }
                if chain_of(rs, rs[q as int], asked, passed.insert(b)) is Ok {
                    let rest = chain_of(rs, rs[q as int], asked, passed.insert(b))->Ok_0;
                    assert(before.drop_last() + (seq![rs[p as int]] + rest) =~= before + rest);
                }
                passed = passed.insert(b);
            }
            p = q;
        }
        proof {
            let all = revision_views(chain@);
            assert(all.last() == chain@.last()@);
            assert(all.drop_last() + seq![all.last()] =~= all);
        }
        Ok(chain)
    }

    /// The content of the revision at a position.
    pub(crate) fn content_at(&self, at: usize) -> (res: Result<String, StoreError>)
        requires
            self.tables().keyed(),
            at < self.tables().revisions.len(),
        ensures
            ({
                let rs = self.tables().revisions;
                match res {
                    Ok(text) => content_of(rs, rs[at as int]) == Ok::<Seq<char>, StoreError>(text@),
                    Err(e) => content_of(rs, rs[at as int]) == Err::<Seq<char>, StoreError>(e),
                }
            }),
    {
        let rows = self.revisions();
        assert(self.tables().revisions[at as int] == rows@[at as int]@);
        match rows[at].event_type {
            EventType::Delete => Err(StoreError::DeletedRevision(rows[at].id)),
            _ => match self.revision_chain(at) {
                Ok(chain) => materialize_chain(&chain),
                Err(e) => Err(e),
            },
        }
    }

    /// The content of the revision of this number.
    pub fn reconstruct_revision_content(&self, revision_id: i64) -> (res: Result<
        String,
        StoreError,
    >)
        requires
            self.wf(),
        ensures
            match res {
                Ok(text) => reconstructed(self.tables().revisions, revision_id) == Ok::<
                    Seq<char>,
                    StoreError,
                >(text@),
                Err(e) => reconstructed(self.tables().revisions, revision_id) == Err::<
                    Seq<char>,
                    StoreError,
                >(e),
            },
    {
        match self.load_revision_by_id(revision_id) {
            None => Err(StoreError::MissingRevision(revision_id)),
            Some(p) => self.content_at(p),
        }
    }

    /// The content that a file had at a time, by what was recorded until then.
    pub fn file_state_at(&self, relative_path: &str, at_ms: i64, context_id: i64) -> (res: Result<
        Option<String>,
        StoreError,
    >)
        requires
            self.wf(),
        ensures
            match res {
                Ok(Some(text)) => state_at(self.tables(), relative_path@, at_ms, context_id) == Ok::<
                    Option<Seq<char>>,
                    StoreError,
                >(Some(text@)),
                Ok(None) => state_at(self.tables(), relative_path@, at_ms, context_id) == Ok::<
                    Option<Seq<char>>,
                    StoreError,
                >(None),
                Err(e) => state_at(self.tables(), relative_path@, at_ms, context_id) == Err::<
                    Option<Seq<char>>,
                    StoreError,
                >(e),
            },
    {
        let file_id: i64 = match self.tracked_file_id_by_path(context_id, relative_path) {
            Some(id) => id,
            None => {
                return Ok(None);
            },
        };
        match self.latest_revision_at(file_id, at_ms) {
            None => Ok(None),
            Some(p) => {
                let rows = self.revisions();
                assert(self.tables().revisions[p as int] == rows@[p as int]@);
                match rows[p].event_type {
                    EventType::Delete => Ok(None),
                    _ => match self.content_at(p) {
                        Ok(text) => Ok(Some(text)),
                        Err(e) => Err(e),
                    },
                }
            },
        }
    }
}

proof fn lemma_first_context_stays(cs: Seq<ContextView>, fingerprint: Seq<char>, n: int)
    requires
        0 <= n <= cs.len(),
        context_id_of(cs.take(n), fingerprint) is Some,
    ensures
        context_id_of(cs, fingerprint) == context_id_of(cs.take(n), fingerprint),
    decreases cs.len(),
{
    if n == cs.len() {
        assert(cs.take(n) =~= cs);
    } else {
        assert(cs.drop_last().take(n) =~= cs.take(n));
        lemma_first_context_stays(cs.drop_last(), fingerprint, n);
    }
}

proof fn lemma_first_file_stays(fs: Seq<FileView>, context_id: i64, path: Seq<char>, n: int)
    requires
        0 <= n <= fs.len(),
        file_id_of(fs.take(n), context_id, path) is Some,
    ensures
        file_id_of(fs, context_id, path) == file_id_of(fs.take(n), context_id, path),
    decreases fs.len(),
{
    if n == fs.len() {
        assert(fs.take(n) =~= fs);
    } else {
        assert(fs.drop_last().take(n) =~= fs.take(n));
        lemma_first_file_stays(fs.drop_last(), context_id, path, n);
    }
}

} // verus!
