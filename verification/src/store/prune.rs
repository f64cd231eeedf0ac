//! Forgetting what is older than the timeline keeps. Of each file there stay the
//! revisions after the cutoff and, as a full copy, the one that held at the cutoff.
use vstd::prelude::*;
use vstd::slice::*;
use vstd::string::*;
use vstd::utf8::*;

use crate::config::DAY_MS;
use crate::store::lookup::{
    content_of,
    latest_at,
    lemma_latest_at,
    lemma_revision_of,
    revision_of,
};
use crate::store::record::{hash_text, sha256_hex};
use crate::store::rows::{
    EventType,
    FileView,
    RevisionRow,
    RevisionView,
    StorageKind,
};
use crate::store::tables::{
    without_revision,
    StoreError,
    Tables,
    TimelineStore,
};
use crate::text::{byte_len, size_of_text};

verus! {

/// What a pruning did.
#[derive(Debug, Clone, Copy, PartialEq, Eq, Structural)]
pub struct PruneSummary {
    pub removed_revisions: usize,
    pub removed_files: usize,
    pub kept_anchors: usize,
}

/// Whether a revision is the one that held at the cutoff.
pub open spec fn is_anchor(rs: Seq<RevisionView>, r: RevisionView, cutoff_ms: i64) -> bool {
    latest_at(rs, r.file_id, cutoff_ms) == Some(r)
}

/// Whether a revision stays.
pub open spec fn stays(rs: Seq<RevisionView>, r: RevisionView, cutoff_ms: i64) -> bool {
    r.recorded_at_ms > cutoff_ms || is_anchor(rs, r, cutoff_ms)
}

/// The time up to which history is too old, for a number of days that it is kept.
pub open spec fn cutoff_at(now_ms: i64, retention_days: i64) -> int {
    now_ms - retention_days * DAY_MS
}

/// Whether a revision holds content, but not in full.
pub open spec fn needs_full_copy(r: RevisionView) -> bool {
    r.event_type != EventType::Delete && r.storage_kind != StorageKind::Full
}

/// Whether the base of a revision that is not a full copy, where it has one, is a revision
/// of the same file.
pub open spec fn base_stays_in_file(rs: Seq<RevisionView>, r: RevisionView) -> bool {
    match r.base_revision_id {
        Some(b) => r.storage_kind == StorageKind::Full || (revision_of(rs, b) matches Some(base)
            ==> base.file_id == r.file_id),
        None => true,
    }
}

/// Whether every base belongs to the same file as what rests on it, full copies aside. All
/// recordings see to that.
pub open spec fn bases_stay_in_files(rs: Seq<RevisionView>) -> bool {
    forall|i: int| 0 <= i < rs.len() ==> base_stays_in_file(rs, #[trigger] rs[i])
}

/// A revision with its content in full.
pub open spec fn full_copy(r: RevisionView, content: Seq<char>) -> RevisionView {
    RevisionView {
        storage_kind: StorageKind::Full,
        base_revision_id: None,
        content_hash: Some(sha256_hex(content)),
        size_bytes: Some(byte_len(content) as i64),
        payload: Some(encode_utf8(content)),
        ..r
    }
}

/// A revision after anchors were turned into full copies.
pub open spec fn settled(rs: Seq<RevisionView>, r: RevisionView, cutoff_ms: i64) -> RevisionView {
    if is_anchor(rs, r, cutoff_ms) && needs_full_copy(r) {
        full_copy(r, content_of(rs, r)->Ok_0)
    } else {
        r
    }
}

/// All revisions after anchors were turned into full copies.
pub open spec fn all_settled(rs: Seq<RevisionView>, cutoff_ms: i64) -> Seq<RevisionView> {
    rs.map_values(|r: RevisionView| settled(rs, r, cutoff_ms))
}

/// The revision, no longer resting on a revision that is gone.
pub open spec fn unlinked_from(r: RevisionView, gone: Set<i64>) -> RevisionView {
    match r.base_revision_id {
        Some(b) => if gone.contains(b) {
            RevisionView { base_revision_id: None, ..r }
        } else {
            r
        },
        None => r,
    }
}

/// The revisions without those of the given numbers; none rests on one that is gone.
pub open spec fn survivors(rs: Seq<RevisionView>, gone: Set<i64>) -> Seq<RevisionView>
    decreases rs.len(),
{
    if rs.len() == 0 {
        Seq::empty()
    } else {
        let rest = survivors(rs.drop_last(), gone);
        if gone.contains(rs.last().id) {
            rest
        } else {
            rest.push(unlinked_from(rs.last(), gone))
        }
    }
}

/// The numbers of the first `n` revisions that do not stay.
pub open spec fn gone_until(rs: Seq<RevisionView>, cutoff_ms: i64, n: int) -> Set<i64> {
    Set::new(
        |id: i64|
            exists|i: int|
                0 <= i < n && i < rs.len() && (#[trigger] rs[i]).id == id && !stays(
                    rs,
                    rs[i],
                    cutoff_ms,
                ),
    )
}

/// The tables after a pruning.
pub open spec fn pruned(t: Tables, cutoff_ms: i64) -> Tables {
    Tables {
        revisions: survivors(
            all_settled(t.revisions, cutoff_ms),
            gone_until(t.revisions, cutoff_ms, t.revisions.len() as int),
        ),
        ..t
    }
}

/// All revisions after the anchor of one file was turned into a full copy.
pub open spec fn file_settled(rs: Seq<RevisionView>, file_id: i64, cutoff_ms: i64) -> Seq<
    RevisionView,
> {
    rs.map_values(
        |r: RevisionView|
            if r.file_id == file_id {
                settled(rs, r, cutoff_ms)
            } else {
                r
            },
    )
}

/// The numbers of the revisions of one file that do not stay.
pub open spec fn file_gone(rs: Seq<RevisionView>, file_id: i64, cutoff_ms: i64) -> Set<i64> {
    Set::new(
        |id: i64|
            exists|i: int|
                0 <= i < rs.len() && (#[trigger] rs[i]).id == id && rs[i].file_id == file_id
                    && !stays(rs, rs[i], cutoff_ms),
    )
}

/// All revisions after one file was pruned.
pub open spec fn file_pruned(rs: Seq<RevisionView>, file_id: i64, cutoff_ms: i64) -> Seq<
    RevisionView,
> {
    survivors(file_settled(rs, file_id, cutoff_ms), file_gone(rs, file_id, cutoff_ms))
}

/// All revisions after one file after the other was pruned, each as those before it left
/// it, and the number of files that had an anchor.
pub open spec fn one_by_one(fs: Seq<FileView>, rs: Seq<RevisionView>, cutoff_ms: i64) -> Result<
    (Seq<RevisionView>, nat),
    StoreError,
>
    decreases fs.len(),
{
    if fs.len() == 0 {
        Ok((rs, 0))
    } else {
        match one_by_one(fs.drop_last(), rs, cutoff_ms) {
            Ok((kept, anchors)) => {
                let id = fs.last().id;
                match anchor_failure(kept, id, cutoff_ms) {
                    Some(e) => Err(e),
                    None => Ok(
                        (
                            file_pruned(kept, id, cutoff_ms),
                            anchors + (if latest_at(kept, id, cutoff_ms) is Some {
                                1nat
                            } else {
                                0nat
                            }),
                        ),
                    ),
                }
            },
            Err(e) => Err(e),
        }
    }
}

/// The tables after a pruning and the number of anchors, or why it fails.
pub open spec fn prune_outcome(t: Tables, cutoff_ms: i64) -> Result<(Tables, nat), StoreError> {
    match one_by_one(t.files, t.revisions, cutoff_ms) {
        Ok((kept, anchors)) => Ok((Tables { revisions: kept, ..t }, anchors)),
        Err(e) => Err(e),
    }
}

/// Why the anchor of a file cannot be turned into a full copy.
pub open spec fn anchor_failure(
    rs: Seq<RevisionView>,
    file_id: i64,
    cutoff_ms: i64,
) -> Option<StoreError> {
    match latest_at(rs, file_id, cutoff_ms) {
        Some(r) => if needs_full_copy(r) {
            match content_of(rs, r) {
                Ok(_) => None,
                Err(e) => Some(e),
            }
        } else {
            None
        },
        None => None,
    }
}

/// Why a pruning fails: the failure of the first file whose anchor has one.
pub open spec fn prune_failure(
    fs: Seq<FileView>,
    rs: Seq<RevisionView>,
    cutoff_ms: i64,
) -> Option<StoreError>
    decreases fs.len(),
{
    if fs.len() == 0 {
        None
    } else {
        match prune_failure(fs.drop_last(), rs, cutoff_ms) {
            Some(e) => Some(e),
            None => anchor_failure(rs, fs.last().id, cutoff_ms),
        }
    }
}

/// The number of files that have an anchor.
pub open spec fn anchor_count(fs: Seq<FileView>, rs: Seq<RevisionView>, cutoff_ms: i64) -> nat
    decreases fs.len(),
{
    if fs.len() == 0 {
        0
    } else {
        anchor_count(fs.drop_last(), rs, cutoff_ms) + (if latest_at(
            rs,
            fs.last().id,
            cutoff_ms,
        ) is Some {
            1nat
        } else {
            0nat
        })
    }
}

/// Removing one more revision from what survives.
proof fn lemma_survivors_without(rs: Seq<RevisionView>, gone: Set<i64>, id: i64)
    ensures
        without_revision(survivors(rs, gone), id) == survivors(rs, gone.insert(id)),
    decreases rs.len(),
{
    let more = gone.insert(id);
    if rs.len() > 0 {
        let rest = rs.drop_last();
        let last = rs.last();
        lemma_survivors_without(rest, gone, id);
        if !gone.contains(last.id) {
            let before = survivors(rest, gone);
            let whole = survivors(rs, gone);
            assert(whole == before.push(unlinked_from(last, gone)));
            assert(whole.drop_last() =~= before);
            assert(whole.last() == unlinked_from(last, gone));
        }
    } else {
        assert(without_revision(survivors(rs, gone), id) =~= survivors(rs, more));
    }
}

/// Where nothing is gone, everything survives.
pub proof fn lemma_survivors_of_none(rs: Seq<RevisionView>)
    ensures
        survivors(rs, Set::empty()) == rs,
    decreases rs.len(),
{
    if rs.len() > 0 {
        lemma_survivors_of_none(rs.drop_last());
        assert(survivors(rs, Set::empty()) =~= rs);
    } else {
        assert(survivors(rs, Set::empty()) =~= rs);
    }
}

/// A revision whose number is not gone is among those that survive.
pub proof fn lemma_survivor_present(rs: Seq<RevisionView>, gone: Set<i64>, at: int)
    requires
        0 <= at < rs.len(),
        !gone.contains(rs[at].id),
    ensures
        exists|p: int|
            0 <= p < survivors(rs, gone).len() && #[trigger] survivors(rs, gone)[p]
                == unlinked_from(rs[at], gone),
    decreases rs.len(),
{
    let whole = survivors(rs, gone);
    let rest = survivors(rs.drop_last(), gone);
    if at == rs.len() - 1 {
        assert(whole == rest.push(unlinked_from(rs[at], gone)));
        assert(whole[rest.len() as int] == unlinked_from(rs[at], gone));
    } else {
        assert(rs.drop_last()[at] == rs[at]);
        lemma_survivor_present(rs.drop_last(), gone, at);
        let p = choose|p: int|
            0 <= p < rest.len() && #[trigger] rest[p] == unlinked_from(rs[at], gone);
        assert(whole[p] == rest[p]);
    }
}

/// What survives was there, and its number is not gone.
pub proof fn lemma_survivor_origin(rs: Seq<RevisionView>, gone: Set<i64>, p: int)
    requires
        0 <= p < survivors(rs, gone).len(),
    ensures
        exists|i: int|
            0 <= i < rs.len() && survivors(rs, gone)[p] == unlinked_from(#[trigger] rs[i], gone)
                && !gone.contains(rs[i].id),
    decreases rs.len(),
{
    if rs.len() > 0 {
        let rest = rs.drop_last();
        let before = survivors(rest, gone);
        if !gone.contains(rs.last().id) && p == before.len() {
            assert(rs[rs.len() - 1] == rs.last());
        } else {
            assert(survivors(rs, gone)[p] == before[p]);
            lemma_survivor_origin(rest, gone, p);
            let i = choose|i: int|
                0 <= i < rest.len() && before[p] == unlinked_from(#[trigger] rest[i], gone)
                    && !gone.contains(rest[i].id);
            assert(rs[i] == rest[i]);
        }
    }
}

/// The first `n` numbers of those that are not to stay.
spec fn marked(ids: Seq<i64>, stay: Seq<bool>, n: int) -> Set<i64> {
    Set::new(
        |id: i64|
            exists|i: int| 0 <= i < n && i < ids.len() && #[trigger] ids[i] == id && !stay[i],
    )
}

proof fn lemma_marked_step(ids: Seq<i64>, stay: Seq<bool>, n: int)
    requires
        0 <= n < ids.len(),
    ensures
        stay[n] ==> marked(ids, stay, n + 1) == marked(ids, stay, n),
        !stay[n] ==> marked(ids, stay, n + 1) == marked(ids, stay, n).insert(ids[n]),
{
    let before = marked(ids, stay, n);
    let after = marked(ids, stay, n + 1);
    assert forall|id: i64| after.contains(id) == (before.contains(id) || (id == ids[n]
        && !stay[n])) by {
        if after.contains(id) {
            let i = choose|i: int|
                0 <= i < n + 1 && i < ids.len() && #[trigger] ids[i] == id && !stay[i];
            if i < n {
                assert(before.contains(id));
            }
        }
        if before.contains(id) {
            let i = choose|i: int|
                0 <= i < n && i < ids.len() && #[trigger] ids[i] == id && !stay[i];
            assert(ids[i] == id);
        }
    }
    if stay[n] {
        assert(after =~= before);
    } else {
        assert(after =~= before.insert(ids[n]));
    }
}

proof fn lemma_one_by_one_stays(fs: Seq<FileView>, rs: Seq<RevisionView>, cutoff_ms: i64, n: int)
    requires
        0 <= n <= fs.len(),
        one_by_one(fs.take(n), rs, cutoff_ms) is Err,
    ensures
        one_by_one(fs, rs, cutoff_ms) == one_by_one(fs.take(n), rs, cutoff_ms),
    decreases fs.len(),
{
    if n == fs.len() {
        assert(fs.take(n) =~= fs);
    } else {
        assert(fs.drop_last().take(n) =~= fs.take(n));
        lemma_one_by_one_stays(fs.drop_last(), rs, cutoff_ms, n);
    }
}

/// A row with its content in full.
fn full_row(row: &RevisionRow, text: &str) -> (res: RevisionRow)
    ensures
        res@ == full_copy(row@, text@),
{
    let res = RevisionRow {
        id: row.id,
        file_id: row.file_id,
        ordinal: row.ordinal,
        recorded_at_ms: row.recorded_at_ms,
        event_type: row.event_type,
        storage_kind: StorageKind::Full,
        base_revision_id: None,
        content_hash: Some(hash_text(text)),
        size_bytes: Some(size_of_text(text) as i64),
        payload: Some(slice_to_vec(text.as_bytes())),
    };
    assert(res@ =~= full_copy(row@, text@));
    res
}

fn asks_full_copy(row: &RevisionRow) -> (r: bool)
    ensures
        r == needs_full_copy(row@),
{
    match row.event_type {
        EventType::Delete => false,
        _ => match row.storage_kind {
            StorageKind::Full => false,
            _ => true,
        },
    }
}

impl TimelineStore {
    /// Forgets what is older than the timeline keeps. A failure changes nothing.
    pub fn prune(&mut self, now_ms: i64) -> (res: Result<PruneSummary, StoreError>)
        requires
            old(self).wf(),
            i64::MIN <= old(self).settings().retention_days * DAY_MS <= i64::MAX,
            i64::MIN <= now_ms - old(self).settings().retention_days * DAY_MS <= i64::MAX,
        ensures
            final(self).wf(),
            old(self).tables().linked() ==> final(self).tables().linked(),
            final(self).same_project(old(self)),
            ({
                let t = old(self).tables();
                let cutoff_ms = cutoff_at(now_ms, old(self).settings().retention_days) as i64;
                match res {
                    Ok(summary) => {
                        &&& prune_outcome(t, cutoff_ms) == Ok::<(Tables, nat), StoreError>(
                            (final(self).tables(), summary.kept_anchors as nat),
                        )
                        &&& summary.removed_files == 0
                        &&& summary.removed_revisions == t.revisions.len()
                            - final(self).tables().revisions.len()
                    },
                    Err(e) => {
                        &&& prune_outcome(t, cutoff_ms) == Err::<(Tables, nat), StoreError>(e)
                        &&& *final(self) == *old(self)
                    },
                }
            }),
    {
        let config = self.config();
        let cutoff_ms: i64 = now_ms - config.retention_days * DAY_MS;
        let mut trial = self.copied();
        match trial.prune_one_by_one(cutoff_ms) {
            Ok(_) => {},
            Err(e) => {
                return Err(e);
            },
        }
        match self.prune_one_by_one(cutoff_ms) {
            Ok((removed_revisions, kept_anchors)) => Ok(
                PruneSummary { removed_revisions, removed_files: 0, kept_anchors },
            ),
            Err(e) => Err(e),
        }
    }

    /// Removes the revisions that are not to stay, and tells how many.
    fn remove_marked(&mut self, ids: &Vec<i64>, stay: &Vec<bool>) -> (removed: usize)
        requires
            old(self).wf(),
            ids@.len() == old(self).tables().revisions.len(),
            stay@.len() == old(self).tables().revisions.len(),
            forall|j: int|
                0 <= j < ids@.len() ==> #[trigger] ids@[j] == old(self).tables().revisions[j].id,
        ensures
            final(self).wf(),
            old(self).tables().linked() ==> final(self).tables().linked(),
            final(self).same_project(old(self)),
            final(self).tables() == (Tables {
                revisions: survivors(
                    old(self).tables().revisions,
                    marked(ids@, stay@, ids@.len() as int),
                ),
                ..old(self).tables()
            }),
            removed == old(self).tables().revisions.len() - final(self).tables().revisions.len(),
    {
        let ghost t = self.tables();
        let ghost all = t.revisions;
        let mut removed: usize = 0;
        let mut i: usize = 0;
        proof {
            assert(marked(ids@, stay@, 0) =~= Set::<i64>::empty());
            lemma_survivors_of_none(all);
        }
        while i < ids.len()
            invariant
                i <= ids@.len() == all.len(),
                stay@.len() == all.len(),
                removed <= i,
                self.wf(),
                old(self).tables().linked() ==> self.tables().linked(),
                self.same_project(old(self)),
                t == old(self).tables(),
                t.keyed(),
                all == t.revisions,
                removed == all.len() - self.tables().revisions.len(),
                self.tables() == (Tables {
                    revisions: survivors(all, marked(ids@, stay@, i as int)),
                    ..t
                }),
                forall|j: int| 0 <= j < ids@.len() ==> #[trigger] ids@[j] == all[j].id,
            decreases ids@.len() - i,
        {
            let ghost gone = marked(ids@, stay@, i as int);
            proof {
                lemma_marked_step(ids@, stay@, i as int);
            }
            if !stay[i] {
                let id: i64 = ids[i];
                proof {
                    assert(!gone.contains(id)) by {
                        if gone.contains(id) {
                            let j = choose|j: int|
                                0 <= j < i && j < ids@.len() && #[trigger] ids@[j] == id
                                    && !stay@[j];
                            assert(all[j].id < all[i as int].id);
                        }
                    }
                    assert(all[i as int].id == id);
                    lemma_survivor_present(all, gone, i as int);
                    lemma_survivors_without(all, gone, id);
                    lemma_revision_of(self.tables().revisions, id);
                }
                match self.load_revision_by_id(id) {
                    Some(p) => {
                        self.delete_revision(p);
                        removed += 1;
                    },
                    None => {
                        proof {
                            let kept = survivors(all, gone);
                            let p = choose|p: int|
                                0 <= p < kept.len() && #[trigger] kept[p] == unlinked_from(
                                    all[i as int],
                                    gone,
                                );
                            assert(kept[p].id == id);
                            assert(false);
                        }
                    },
                }
            }
            i += 1;
        }
        removed
    }

    /// Prunes one file, and tells whether it has an anchor. A failure changes nothing.
    fn prune_file(&mut self, file_id: i64, cutoff_ms: i64) -> (res: Result<bool, StoreError>)
        requires
            old(self).wf(),
        ensures
            final(self).wf(),
            old(self).tables().linked() ==> final(self).tables().linked(),
            final(self).same_project(old(self)),
            ({
                let t = old(self).tables();
                let rs = t.revisions;
                match res {
                    Ok(anchored) => {
                        &&& anchor_failure(rs, file_id, cutoff_ms) is None
                        &&& anchored == (latest_at(rs, file_id, cutoff_ms) is Some)
                        &&& final(self).tables() == (Tables {
                            revisions: file_pruned(rs, file_id, cutoff_ms),
                            ..t
                        })
                    },
                    Err(e) => {
                        &&& anchor_failure(rs, file_id, cutoff_ms) == Some(e)
                        &&& *final(self) == *old(self)
                    },
                }
            }),
    {
        let ghost t = self.tables();
        let ghost rs = t.revisions;
        let anchor = self.latest_revision_at(file_id, cutoff_ms);
        let mut full: Option<RevisionRow> = None;
        if let Some(p) = anchor {
            let rows = self.revisions();
            assert(rs[p as int] == rows@[p as int]@);
            if asks_full_copy(&rows[p]) {
                match self.content_at(p) {
                    Ok(text) => {
                        full = Some(full_row(&rows[p], text.as_str()));
                    },
                    Err(e) => {
                        return Err(e);
                    },
                }
            }
        }
        let rows = self.revisions();
        let mut stay: Vec<bool> = Vec::new();
        let mut ids: Vec<i64> = Vec::new();
        proof {
            lemma_latest_at(rs, file_id, cutoff_ms);
        }
        for i in 0..rows.len()
            invariant
                t.keyed(),
                rs == t.revisions,
                rows@.len() == rs.len(),
                forall|j: int| 0 <= j < rs.len() ==> #[trigger] rs[j] == rows@[j]@,
                match anchor {
                    Some(p) => p < rs.len() && latest_at(rs, file_id, cutoff_ms) == Some(
                        rs[p as int],
                    ),
                    None => latest_at(rs, file_id, cutoff_ms) is None,
                },
                stay@.len() == i,
                ids@.len() == i,
                forall|j: int|
                    0 <= j < i ==> #[trigger] stay@[j] == (rs[j].file_id != file_id || stays(
                        rs,
                        rs[j],
                        cutoff_ms,
                    )),
                forall|j: int| 0 <= j < i ==> #[trigger] ids@[j] == rs[j].id,
        {
            assert(rs[i as int] == rows@[i as int]@);
            let is_anchor = match anchor {
                Some(p) => p == i,
                None => false,
            };
            proof {
                if let Some(p) = anchor {
                    if p < i {
                        assert(rs[p as int].id < rs[i as int].id);
                    } else if i < p {
                        assert(rs[i as int].id < rs[p as int].id);
                    }
                }
            }
            stay.push(rows[i].file_id != file_id || rows[i].recorded_at_ms > cutoff_ms || is_anchor);
            ids.push(rows[i].id);
        }
        let ghost after = file_settled(rs, file_id, cutoff_ms);
        if let Some(row) = full {
            if let Some(p) = anchor {
                self.update_revision(p, row);
                proof {
                    assert(self.tables().revisions == rs.update(p as int, row@));
                    assert forall|j: int| 0 <= j < rs.len() implies #[trigger] after[j] == rs.update(
                        p as int,
                        row@,
                    )[j] by {
                        if j < p {
                            assert(rs[j].id < rs[p as int].id);
                        } else if p < j {
                            assert(rs[p as int].id < rs[j].id);
                        }
                    }
                    assert(after =~= rs.update(p as int, row@));
                }
            }
        } else {
            proof {
                assert forall|j: int| 0 <= j < rs.len() implies #[trigger] after[j] == rs[j] by {}
                assert(after =~= rs);
            }
        }
        proof {
            let n = rs.len() as int;
            let gone = file_gone(rs, file_id, cutoff_ms);
            assert(self.tables().revisions == after);
            assert forall|id: i64| marked(ids@, stay@, n).contains(id) == gone.contains(id) by {
                if marked(ids@, stay@, n).contains(id) {
                    let i = choose|i: int|
                        0 <= i < n && i < ids@.len() && #[trigger] ids@[i] == id && !stay@[i];
                    assert(rs[i].id == id && rs[i].file_id == file_id && !stays(
                        rs,
                        rs[i],
                        cutoff_ms,
                    ));
                }
                if gone.contains(id) {
                    let i = choose|i: int|
                        0 <= i < rs.len() && (#[trigger] rs[i]).id == id && rs[i].file_id == file_id
                            && !stays(rs, rs[i], cutoff_ms);
                    assert(ids@[i] == id && !stay@[i]);
                }
            }
            assert(marked(ids@, stay@, n) =~= gone);
            assert forall|j: int| 0 <= j < ids@.len() implies #[trigger] ids@[j] == after[j].id by {
                assert(ids@[j] == rs[j].id);
            }
        }
        let _removed: usize = self.remove_marked(&ids, &stay);
        Ok(anchor.is_some())
    }

    /// Prunes one file after the other, and tells how many revisions were removed and how
    /// many files have an anchor.
    fn prune_one_by_one(&mut self, cutoff_ms: i64) -> (res: Result<(usize, usize), StoreError>)
        requires
            old(self).wf(),
        ensures
            final(self).wf(),
            old(self).tables().linked() ==> final(self).tables().linked(),
            final(self).same_project(old(self)),
            ({
                let t = old(self).tables();
                let outcome = one_by_one(t.files, t.revisions, cutoff_ms);
                match res {
                    Ok((removed, anchors)) => {
                        &&& outcome is Ok
                        &&& final(self).tables() == (Tables { revisions: outcome->Ok_0.0, ..t })
                        &&& anchors == outcome->Ok_0.1
                        &&& removed == t.revisions.len() - final(self).tables().revisions.len()
                    },
                    Err(e) => outcome == Err::<(Seq<RevisionView>, nat), StoreError>(e),
                }
            }),
    {
        let ghost t = self.tables();
        let ghost fs = t.files;
        let ghost rs = t.revisions;
        let before: usize = self.revisions().len();
        let count: usize = self.files().len();
        let mut anchors: usize = 0;
        let mut f: usize = 0;
        assert(fs.take(0) =~= Seq::<FileView>::empty());
        while f < count
            invariant
                f <= count == fs.len(),
                anchors <= f,
                self.wf(),
                old(self).tables().linked() ==> self.tables().linked(),
                self.same_project(old(self)),
                t == old(self).tables(),
                fs == t.files,
                rs == t.revisions,
                self.tables() == (Tables { revisions: self.tables().revisions, ..t }),
                self.tables().revisions.len() <= rs.len(),
                one_by_one(fs.take(f as int), rs, cutoff_ms) == Ok::<
                    (Seq<RevisionView>, nat),
                    StoreError,
                >((self.tables().revisions, anchors as nat)),
            decreases count - f,
        {
            let ghost kept = self.tables().revisions;
            proof {
                assert(fs.take(f + 1).drop_last() =~= fs.take(f as int));
                assert(fs.take(f + 1).last() == fs[f as int]);
            }
            let files = self.files();
            assert(fs[f as int] == files@[f as int]@);
            let file_id: i64 = files[f].id;
            match self.prune_file(file_id, cutoff_ms) {
                Ok(anchored) => {
                    if anchored {
                        anchors += 1;
                    }
                },
                Err(e) => {
                    proof {
                        lemma_one_by_one_stays(fs, rs, cutoff_ms, f + 1);
                    }
                    return Err(e);
                },
            }
            proof {
                lemma_survivors_are_fewer(
                    file_settled(kept, file_id, cutoff_ms),
                    file_gone(kept, file_id, cutoff_ms),
                );
            }
            f += 1;
        }
        assert(fs.take(f as int) =~= fs);
        Ok((before - self.revisions().len(), anchors))
    }
}

proof fn lemma_survivors_are_fewer(rs: Seq<RevisionView>, gone: Set<i64>)
    ensures
        survivors(rs, gone).len() <= rs.len(),
    decreases rs.len(),
{
    if rs.len() > 0 {
        lemma_survivors_are_fewer(rs.drop_last(), gone);
    }
}

} // verus!
