//! Listing what a timeline holds: histories, recent changes, paths and counts.
use vstd::prelude::*;
use vstd::string::*;

use crate::config::WATCHER_STALE_AFTER_MS;
use crate::store::laws::lemma_one_more_end;
use crate::store::lookup::{latest, newer};
use crate::store::record::{was_there, with_delete};
use crate::store::rows::{EventType, FileView, RevisionRow, RevisionView, StorageKind, WatcherView};
use crate::store::sound::{ends_at, nothing_after, sound};
use crate::store::tables::{
    file_ids_ascend,
    position_of_file,
    StoreError,
    Tables,
    TimelineStore,
};
use crate::text::{
    byte_len,
    chars_of,
    lemma_position_unique,
    position_of,
    size_of_text,
    sort_texts,
    sorted_texts,
    text_of,
    texts,
};

verus! {

// ---------------------------------------------------------------------------
// Order in time
// ---------------------------------------------------------------------------

/// A row of revisions, oldest first, with one more put in its place.
pub open spec fn placed(sorted: Seq<RevisionView>, r: RevisionView) -> Seq<RevisionView>
    decreases sorted.len(),
{
    if sorted.len() > 0 && newer(sorted.last(), r) {
        placed(sorted.drop_last(), r).push(sorted.last())
    } else {
        sorted.push(r)
    }
}

/// Revisions, oldest first.
pub open spec fn oldest_first(rs: Seq<RevisionView>) -> Seq<RevisionView>
    decreases rs.len(),
{
    if rs.len() == 0 {
        Seq::empty()
    } else {
        placed(oldest_first(rs.drop_last()), rs.last())
    }
}

/// Revisions, newest first.
pub open spec fn newest_first(rs: Seq<RevisionView>) -> Seq<RevisionView> {
    oldest_first(rs).reverse()
}

/// Whether no revision is newer than one after it.
pub open spec fn in_time_order(rs: Seq<RevisionView>) -> bool {
    forall|i: int, j: int| 0 <= i < j < rs.len() ==> !newer(#[trigger] rs[i], #[trigger] rs[j])
}

proof fn lemma_placed(sorted: Seq<RevisionView>, r: RevisionView)
    requires
        in_time_order(sorted),
    ensures
        in_time_order(placed(sorted, r)),
        placed(sorted, r).to_multiset() == sorted.to_multiset().insert(r),
        placed(sorted, r).len() == sorted.len() + 1,
    decreases sorted.len(),
{
    broadcast use vstd::seq_lib::group_to_multiset_ensures;

    if sorted.len() > 0 && newer(sorted.last(), r) {
        let rest = sorted.drop_last();
        assert forall|i: int, j: int| 0 <= i < j < rest.len() implies !newer(
            #[trigger] rest[i],
            #[trigger] rest[j],
        ) by {
            assert(!newer(sorted[i], sorted[j]));
        }
        lemma_placed(rest, r);
        let out = placed(rest, r);
        let whole = out.push(sorted.last());
        assert(sorted =~= rest.push(sorted.last()));
        assert(whole.to_multiset() =~= sorted.to_multiset().insert(r));
        assert forall|i: int, j: int| 0 <= i < j < whole.len() implies !newer(
            #[trigger] whole[i],
            #[trigger] whole[j],
        ) by {
            if j == out.len() {
                assert(out.contains(whole[i]));
                assert(out.to_multiset().count(whole[i]) > 0);
                if whole[i] != r {
                    assert(rest.to_multiset().count(whole[i]) > 0);
                    assert(rest.contains(whole[i]));
                    let k = choose|k: int| 0 <= k < rest.len() && rest[k] == whole[i];
                    assert(!newer(sorted[k], sorted[sorted.len() - 1]));
                }
            } else {
                assert(out[i] == whole[i] && out[j] == whole[j]);
            }
        }
    } else {
        let whole = sorted.push(r);
        assert forall|i: int, j: int| 0 <= i < j < whole.len() implies !newer(
            #[trigger] whole[i],
            #[trigger] whole[j],
        ) by {
            if j == sorted.len() {
                let last = sorted[sorted.len() - 1];
                assert(whole[i] == sorted[i]);
                if i < sorted.len() - 1 {
                    assert(!newer(sorted[i], last));
                }
                assert(!newer(sorted.last(), r));
            } else {
                assert(whole[i] == sorted[i] && whole[j] == sorted[j]);
            }
        }
    }
}

/// Putting revisions in order keeps every one of them and leaves none newer than one
/// after it.
pub proof fn law_oldest_first_sorts(rs: Seq<RevisionView>)
    ensures
        in_time_order(oldest_first(rs)),
        oldest_first(rs).to_multiset() == rs.to_multiset(),
        oldest_first(rs).len() == rs.len(),
    decreases rs.len(),
{
    broadcast use vstd::seq_lib::group_to_multiset_ensures;

    if rs.len() > 0 {
        law_oldest_first_sorts(rs.drop_last());
        lemma_placed(oldest_first(rs.drop_last()), rs.last());
        assert(rs =~= rs.drop_last().push(rs.last()));
    } else {
        assert(oldest_first(rs) =~= rs);
    }
}

proof fn lemma_placed_at(sorted: Seq<RevisionView>, r: RevisionView, k: int)
    requires
        0 <= k <= sorted.len(),
        forall|j: int| k <= j < sorted.len() ==> newer(#[trigger] sorted[j], r),
        k > 0 ==> !newer(sorted[k - 1], r),
    ensures
        placed(sorted, r) == sorted.insert(k, r),
    decreases sorted.len(),
{
    if k < sorted.len() {
        assert(newer(sorted[sorted.len() - 1], r));
        let rest = sorted.drop_last();
        assert forall|j: int| k <= j < rest.len() implies newer(#[trigger] rest[j], r) by {
            assert(rest[j] == sorted[j]);
        }
        lemma_placed_at(rest, r, k);
        assert(placed(sorted, r) =~= sorted.insert(k, r));
    } else {
        assert(placed(sorted, r) =~= sorted.insert(k, r));
    }
}

/// The revisions at the given positions.
pub open spec fn picked(rows: Seq<RevisionRow>, picks: Seq<usize>) -> Seq<RevisionView> {
    picks.map_values(|i: usize| rows[i as int]@)
}

/// Positions of revisions, put in the order in which they were recorded.
fn order_by_time(rows: &Vec<RevisionRow>, picks: &Vec<usize>) -> (out: Vec<usize>)
    requires
        forall|i: int| 0 <= i < picks@.len() ==> #[trigger] picks@[i] < rows@.len(),
    ensures
        picked(rows@, out@) == oldest_first(picked(rows@, picks@)),
        forall|i: int| 0 <= i < out@.len() ==> #[trigger] out@[i] < rows@.len(),
        out@.len() == picks@.len(),
{
    let mut out: Vec<usize> = Vec::new();
    let mut i: usize = 0;
    let ghost all = picked(rows@, picks@);
    assert(picked(rows@, out@) =~= oldest_first(all.take(0)));
    while i < picks.len()
        invariant
            i <= picks@.len(),
            all == picked(rows@, picks@),
            picked(rows@, out@) == oldest_first(all.take(i as int)),
            out@.len() == i,
            forall|i: int| 0 <= i < picks@.len() ==> #[trigger] picks@[i] < rows@.len(),
            forall|i: int| 0 <= i < out@.len() ==> #[trigger] out@[i] < rows@.len(),
        decreases picks@.len() - i,
    {
        let p: usize = picks[i];
        let ghost sorted = picked(rows@, out@);
        let ghost r = rows@[p as int]@;
        let mut k: usize = out.len();
        while k > 0 && (rows[out[k - 1]].recorded_at_ms > rows[p].recorded_at_ms || (
        rows[out[k - 1]].recorded_at_ms == rows[p].recorded_at_ms && rows[out[k - 1]].id
            > rows[p].id))
            invariant
                k <= out@.len(),
                p < rows@.len(),
                r == rows@[p as int]@,
                sorted == picked(rows@, out@),
                forall|i: int| 0 <= i < out@.len() ==> #[trigger] out@[i] < rows@.len(),
                forall|j: int| k <= j < sorted.len() ==> newer(#[trigger] sorted[j], r),
            decreases k,
        {
            assert(sorted[k - 1] == rows@[out@[k - 1] as int]@);
            k -= 1;
        }
        proof {
            if k > 0 {
                assert(sorted[k - 1] == rows@[out@[k - 1] as int]@);
            }
            lemma_placed_at(sorted, r, k as int);
            assert(all.take(i + 1).drop_last() =~= all.take(i as int));
            assert(all.take(i + 1).last() == r);
        }
        out.insert(k, p);
        assert(picked(rows@, out@) =~= sorted.insert(k as int, r));
        i += 1;
    }
    assert(all.take(i as int) =~= all);
    out
}

// ---------------------------------------------------------------------------
// Histories
// ---------------------------------------------------------------------------

/// One line of a file's history.
#[derive(Debug, Clone, Copy, PartialEq, Eq, Structural)]
pub struct HistoryEntry {
    pub recorded_at_ms: i64,
    pub event_type: EventType,
    pub size_bytes: Option<i64>,
    pub storage_kind: StorageKind,
}

/// The revisions of a file, in the order of their numbers.
pub open spec fn revisions_of(rs: Seq<RevisionView>, file_id: i64) -> Seq<RevisionView>
    decreases rs.len(),
{
    if rs.len() == 0 {
        Seq::empty()
    } else if rs.last().file_id == file_id {
        revisions_of(rs.drop_last(), file_id).push(rs.last())
    } else {
        revisions_of(rs.drop_last(), file_id)
    }
}

/// What the history shows of a revision.
pub open spec fn history_entry(r: RevisionView) -> HistoryEntry {
    HistoryEntry {
        recorded_at_ms: r.recorded_at_ms,
        event_type: r.event_type,
        size_bytes: r.size_bytes,
        storage_kind: r.storage_kind,
    }
}

/// The history of a file, newest first.
pub open spec fn history(t: Tables, path: Seq<char>, context_id: i64) -> Seq<HistoryEntry> {
    match crate::store::lookup::file_id_of(t.files, context_id, path) {
        None => Seq::empty(),
        Some(file_id) => newest_first(revisions_of(t.revisions, file_id)).map_values(
            |r: RevisionView| history_entry(r),
        ),
    }
}

impl TimelineStore {
    /// The positions of the revisions of a file, oldest first.
    pub(crate) fn revisions_for_file(&self, file_id: i64) -> (out: Vec<usize>)
        ensures
            forall|i: int|
                0 <= i < out@.len() ==> #[trigger] out@[i] < self.tables().revisions.len(),
            out@.map_values(|i: usize| self.tables().revisions[i as int]) == oldest_first(
                revisions_of(self.tables().revisions, file_id),
            ),
    {
        let rows = self.revisions();
        let ghost rs = self.tables().revisions;
        let mut picks: Vec<usize> = Vec::new();
        let mut i: usize = 0;
        assert(picked(rows@, picks@) =~= revisions_of(rs.take(0), file_id));
        while i < rows.len()
            invariant
                i <= rows@.len() == rs.len(),
                rs == self.tables().revisions,
                forall|j: int| 0 <= j < rs.len() ==> #[trigger] rs[j] == rows@[j]@,
                forall|j: int| 0 <= j < picks@.len() ==> #[trigger] picks@[j] < rows@.len(),
                picked(rows@, picks@) == revisions_of(rs.take(i as int), file_id),
            decreases rows@.len() - i,
        {
            let ghost before = picked(rows@, picks@);
            assert(rs.take(i + 1).drop_last() =~= rs.take(i as int));
            assert(rs.take(i + 1).last() == rows@[i as int]@) by {
                assert(rs[i as int] == rows@[i as int]@);
            }
            if rows[i].file_id == file_id {
                picks.push(i);
                assert(picked(rows@, picks@) =~= before.push(rows@[i as int]@));
            }
            i += 1;
        }
        assert(rs.take(i as int) =~= rs);
        let out = order_by_time(rows, &picks);
        proof {
            assert(out@.map_values(|i: usize| rs[i as int]) =~= picked(rows@, out@)) by {
                assert forall|k: int| 0 <= k < out@.len() implies rs[out@[k] as int]
                    == #[trigger] picked(rows@, out@)[k] by {
                    assert(rs[out@[k] as int] == rows@[out@[k] as int]@);
                }
            }
        }
        out
    }

    /// The history of a file, newest first.
    pub fn file_history(&self, relative_path: &str, context_id: i64) -> (res: Vec<HistoryEntry>)
        ensures
            res@ == history(self.tables(), relative_path@, context_id),
    {
        let mut res: Vec<HistoryEntry> = Vec::new();
        let file_id: i64 = match self.tracked_file_id_by_path(context_id, relative_path) {
            Some(id) => id,
            None => {
                return res;
            },
        };
        let order = self.revisions_for_file(file_id);
        let rows = self.revisions();
        let ghost rs = self.tables().revisions;
        let ghost sorted = oldest_first(revisions_of(rs, file_id));
        let ghost expected = history(self.tables(), relative_path@, context_id);
        let mut k: usize = order.len();
        while k > 0
            invariant
                k <= order@.len(),
                rs == self.tables().revisions,
                revision_rows_are(rows@, rs),
                forall|i: int| 0 <= i < order@.len() ==> #[trigger] order@[i] < rs.len(),
                order@.map_values(|i: usize| rs[i as int]) == sorted,
                expected == sorted.reverse().map_values(|r: RevisionView| history_entry(r)),
                res@ == expected.take(order@.len() - k),
            decreases k,
        {
            let p: usize = order[k - 1];
            let row = &rows[p];
            proof {
                assert(sorted[k - 1] == rs[p as int]);
                assert(rs[p as int] == row@);
                assert(expected[order@.len() - k] == history_entry(sorted[k - 1]));
            }
            res.push(
                HistoryEntry {
                    recorded_at_ms: row.recorded_at_ms,
                    event_type: row.event_type,
                    size_bytes: row.size_bytes,
                    storage_kind: row.storage_kind,
                },
            );
            k -= 1;
            assert(expected.take(order@.len() - k) =~= expected.take(order@.len() - k - 1).push(
                expected[order@.len() - k - 1],
            ));
        }
        assert(expected.take(order@.len() as int) =~= expected);
        res
    }
}

/// Whether rows have the given views.
spec fn revision_rows_are(rows: Seq<RevisionRow>, rs: Seq<RevisionView>) -> bool {
    rows.len() == rs.len() && forall|j: int| 0 <= j < rs.len() ==> #[trigger] rs[j] == rows[j]@
}

// ---------------------------------------------------------------------------
// Recent changes
// ---------------------------------------------------------------------------

/// One recent change.
#[derive(Debug, Clone)]
pub struct RecentChange {
    pub path: String,
    pub recorded_at_ms: i64,
    pub event_type: EventType,
}

/// The view of a [`RecentChange`].
pub struct RecentView {
    pub path: Seq<char>,
    pub recorded_at_ms: i64,
    pub event_type: EventType,
}

impl View for RecentChange {
    type V = RecentView;

    open spec fn view(&self) -> RecentView {
        RecentView {
            path: self.path@,
            recorded_at_ms: self.recorded_at_ms,
            event_type: self.event_type,
        }
    }
}

/// The views of recent changes.
pub open spec fn recent_views(v: Seq<RecentChange>) -> Seq<RecentView> {
    v.map_values(|c: RecentChange| c@)
}

/// The file of this number.
pub open spec fn file_of(fs: Seq<FileView>, id: i64) -> Option<FileView>
    decreases fs.len(),
{
    if fs.len() == 0 {
        None
    } else if fs.last().id == id {
        Some(fs.last())
    } else {
        file_of(fs.drop_last(), id)
    }
}

/// Whether a revision belongs to a context.
pub open spec fn in_context(fs: Seq<FileView>, r: RevisionView, context_id: i64) -> bool {
    match file_of(fs, r.file_id) {
        Some(f) => f.context_id == context_id,
        None => false,
    }
}

/// The revisions of a context, in the order of their numbers.
pub open spec fn revisions_in(
    rs: Seq<RevisionView>,
    fs: Seq<FileView>,
    context_id: i64,
) -> Seq<RevisionView>
    decreases rs.len(),
{
    if rs.len() == 0 {
        Seq::empty()
    } else if in_context(fs, rs.last(), context_id) {
        revisions_in(rs.drop_last(), fs, context_id).push(rs.last())
    } else {
        revisions_in(rs.drop_last(), fs, context_id)
    }
}

/// What a list of recent changes shows of a revision.
pub open spec fn recent_entry(fs: Seq<FileView>, r: RevisionView) -> RecentView {
    RecentView {
        path: file_of(fs, r.file_id)->Some_0.path,
        recorded_at_ms: r.recorded_at_ms,
        event_type: r.event_type,
    }
}

/// The changes of a context, newest first, at most `limit` of them.
pub open spec fn recent(t: Tables, limit: nat, context_id: i64) -> Seq<RecentView> {
    let all = newest_first(revisions_in(t.revisions, t.files, context_id)).map_values(
        |r: RevisionView| recent_entry(t.files, r),
    );
    if limit < all.len() {
        all.take(limit as int)
    } else {
        all
    }
}

/// Where numbers ascend, the file of a number is the one that is found under it.
pub proof fn lemma_file_of(fs: Seq<FileView>, at: int, last: i64)
    requires
        0 <= at < fs.len(),
        file_ids_ascend(fs, last),
    ensures
        file_of(fs, fs[at].id) == Some(fs[at]),
    decreases fs.len(),
{
    if at == fs.len() - 1 {
        assert(fs.last() == fs[at]);
    } else {
        assert(fs[at].id < fs[fs.len() - 1].id);
        let rest = fs.drop_last();
        assert(rest[at] == fs[at]);
        assert forall|i: int| 0 <= i < rest.len() implies (#[trigger] rest[i]).id <= last by {
            assert(rest[i] == fs[i]);
        }
        assert forall|i: int, j: int| 0 <= i < j < rest.len() implies (#[trigger] rest[i]).id < (
        #[trigger] rest[j]).id by {
            assert(rest[i] == fs[i] && rest[j] == fs[j]);
        }
        lemma_file_of(rest, at, last);
    }
}

/// Whether the file that a revision belongs to is there.
spec fn has_its_file(fs: Seq<FileView>, r: RevisionView) -> bool {
    file_of(fs, r.file_id) is Some
}

proof fn lemma_revisions_in_have_files(rs: Seq<RevisionView>, fs: Seq<FileView>, context_id: i64)
    ensures
        forall|i: int|
            0 <= i < revisions_in(rs, fs, context_id).len() ==> has_its_file(
                fs,
                #[trigger] revisions_in(rs, fs, context_id)[i],
            ),
    decreases rs.len(),
{
    if rs.len() > 0 {
        lemma_revisions_in_have_files(rs.drop_last(), fs, context_id);
        let all = revisions_in(rs, fs, context_id);
        let before = revisions_in(rs.drop_last(), fs, context_id);
        assert forall|i: int| 0 <= i < all.len() implies has_its_file(fs, #[trigger] all[i]) by {
            if i < before.len() {
                assert(all[i] == before[i]);
            }
        }
    }
}

proof fn lemma_placed_have_files(sorted: Seq<RevisionView>, r: RevisionView, fs: Seq<FileView>)
    requires
        forall|i: int| 0 <= i < sorted.len() ==> has_its_file(fs, #[trigger] sorted[i]),
        has_its_file(fs, r),
    ensures
        forall|i: int|
            0 <= i < placed(sorted, r).len() ==> has_its_file(fs, #[trigger] placed(sorted, r)[i]),
    decreases sorted.len(),
{
    if sorted.len() > 0 && newer(sorted.last(), r) {
        let rest = sorted.drop_last();
        assert forall|i: int| 0 <= i < rest.len() implies has_its_file(fs, #[trigger] rest[i]) by {
            assert(rest[i] == sorted[i]);
        }
        assert(has_its_file(fs, sorted[sorted.len() - 1]));
        lemma_placed_have_files(rest, r, fs);
        let before = placed(rest, r);
        let all = placed(sorted, r);
        assert forall|i: int| 0 <= i < all.len() implies has_its_file(fs, #[trigger] all[i]) by {
            if i < before.len() {
                assert(all[i] == before[i]);
            }
        }
    } else {
        let all = placed(sorted, r);
        assert forall|i: int| 0 <= i < all.len() implies has_its_file(fs, #[trigger] all[i]) by {
            if i < sorted.len() {
                assert(all[i] == sorted[i]);
            }
        }
    }
}

proof fn lemma_sorted_have_files(rs: Seq<RevisionView>, fs: Seq<FileView>)
    requires
        forall|i: int| 0 <= i < rs.len() ==> has_its_file(fs, #[trigger] rs[i]),
    ensures
        forall|i: int|
            0 <= i < oldest_first(rs).len() ==> has_its_file(fs, #[trigger] oldest_first(rs)[i]),
    decreases rs.len(),
{
    if rs.len() > 0 {
        let rest = rs.drop_last();
        assert forall|i: int| 0 <= i < rest.len() implies has_its_file(fs, #[trigger] rest[i]) by {
            assert(rest[i] == rs[i]);
        }
        assert(has_its_file(fs, rs[rs.len() - 1]));
        lemma_sorted_have_files(rest, fs);
        lemma_placed_have_files(oldest_first(rest), rs.last(), fs);
    }
}

pub proof fn lemma_no_file_of(fs: Seq<FileView>, id: i64)
    requires
        forall|i: int| 0 <= i < fs.len() ==> (#[trigger] fs[i]).id != id,
    ensures
        file_of(fs, id) is None,
    decreases fs.len(),
{
    if fs.len() > 0 {
        assert(fs[fs.len() - 1].id != id);
        assert forall|i: int| 0 <= i < fs.drop_last().len() implies (
        #[trigger] fs.drop_last()[i]).id != id by {
            assert(fs[i].id != id);
        }
        lemma_no_file_of(fs.drop_last(), id);
    }
}

impl TimelineStore {
    /// The position of the file that a revision belongs to, where that is there.
    fn file_of_revision(&self, at: usize) -> (res: Option<usize>)
        requires
            self.wf(),
            at < self.tables().revisions.len(),
        ensures
            match res {
                Some(p) => {
                    &&& p < self.tables().files.len()
                    &&& file_of(self.tables().files, self.tables().revisions[at as int].file_id)
                        == Some(self.tables().files[p as int])
                },
                None => file_of(self.tables().files, self.tables().revisions[at as int].file_id)
                    is None,
            },
    {
        let rows = self.revisions();
        let files = self.files();
        let ghost fs = self.tables().files;
        proof {
            assert(self.tables().revisions[at as int] == rows@[at as int]@);
            assert forall|i: int, j: int| 0 <= i < j < files@.len() implies (
            #[trigger] files@[i]).id < (#[trigger] files@[j]).id by {
                assert(fs[i].id < fs[j].id);
            }
        }
        match position_of_file(files, rows[at].file_id) {
            Some(p) => {
                proof {
                    assert(fs[p as int] == files@[p as int]@);
                    lemma_file_of(fs, p as int, self.tables().last_file_id);
                }
                Some(p)
            },
            None => {
                proof {
                    assert forall|j: int| 0 <= j < fs.len() implies (#[trigger] fs[j]).id
                        != rows@[at as int].file_id by {
                        assert(files@[j].id == fs[j].id);
                    }
                    lemma_no_file_of(fs, rows@[at as int].file_id);
                }
                None
            },
        }
    }

    /// The changes of a context, newest first, at most `limit` of them.
    pub fn recent_changes(&self, limit: usize, context_id: i64) -> (res: Vec<RecentChange>)
        requires
            self.wf(),
        ensures
            recent_views(res@) == recent(self.tables(), limit as nat, context_id),
    {
        let rows = self.revisions();
        let files = self.files();
        let ghost rs = self.tables().revisions;
        let ghost fs = self.tables().files;
        let mut picks: Vec<usize> = Vec::new();
        let mut i: usize = 0;
        assert(picked(rows@, picks@) =~= revisions_in(rs.take(0), fs, context_id));
        while i < rows.len()
            invariant
                i <= rows@.len() == rs.len(),
                self.wf(),
                rs == self.tables().revisions,
                fs == self.tables().files,
                files@.len() == fs.len(),
                forall|j: int| 0 <= j < fs.len() ==> #[trigger] fs[j] == files@[j]@,
                revision_rows_are(rows@, rs),
                forall|j: int| 0 <= j < picks@.len() ==> #[trigger] picks@[j] < rows@.len(),
                picked(rows@, picks@) == revisions_in(rs.take(i as int), fs, context_id),
            decreases rows@.len() - i,
        {
            let ghost before = picked(rows@, picks@);
            assert(rs.take(i + 1).drop_last() =~= rs.take(i as int));
            assert(rs.take(i + 1).last() == rows@[i as int]@) by {
                assert(rs[i as int] == rows@[i as int]@);
            }
            assert(rs[i as int] == rows@[i as int]@);
            if let Some(f) = self.file_of_revision(i) {
                assert(fs[f as int] == files@[f as int]@);
                if files[f].context_id == context_id {
                    picks.push(i);
                    assert(picked(rows@, picks@) =~= before.push(rows@[i as int]@));
                }
            }
            i += 1;
        }
        assert(rs.take(i as int) =~= rs);
        let order = order_by_time(rows, &picks);
        let ghost sorted = oldest_first(revisions_in(rs, fs, context_id));
        let ghost all = sorted.reverse().map_values(|r: RevisionView| recent_entry(fs, r));
        proof {
            lemma_revisions_in_have_files(rs, fs, context_id);
            lemma_sorted_have_files(revisions_in(rs, fs, context_id), fs);
        }
        let mut res: Vec<RecentChange> = Vec::new();
        let mut k: usize = order.len();
        assert(recent_views(res@) =~= all.take(0));
        while k > 0 && res.len() < limit
            invariant
                k <= order@.len(),
                self.wf(),
                rs == self.tables().revisions,
                fs == self.tables().files,
                files@.len() == fs.len(),
                forall|j: int| 0 <= j < fs.len() ==> #[trigger] fs[j] == files@[j]@,
                revision_rows_are(rows@, rs),
                forall|i: int| 0 <= i < order@.len() ==> #[trigger] order@[i] < rs.len(),
                picked(rows@, order@) == sorted,
                all == sorted.reverse().map_values(|r: RevisionView| recent_entry(fs, r)),
                forall|i: int| 0 <= i < sorted.len() ==> has_its_file(fs, #[trigger] sorted[i]),
                res@.len() == order@.len() - k,
                res@.len() <= limit,
                recent_views(res@) == all.take(order@.len() - k),
            decreases k,
        {
            let p: usize = order[k - 1];
            let ghost before = recent_views(res@);
            proof {
                assert(sorted[k - 1] == rows@[p as int]@);
                assert(rs[p as int] == rows@[p as int]@);
                assert(has_its_file(fs, sorted[k - 1]));
            }
            let f: usize = match self.file_of_revision(p) {
                Some(f) => f,
                None => {
                    assert(false);
                    0
                },
            };
            proof {
                assert(fs[f as int] == files@[f as int]@);
                assert(all[order@.len() - k] == recent_entry(fs, sorted[k - 1]));
            }
            res.push(
                RecentChange {
                    path: files[f].path.clone(),
                    recorded_at_ms: rows[p].recorded_at_ms,
                    event_type: rows[p].event_type,
                },
            );
            k -= 1;
            proof {
                assert(recent_views(res@) =~= before.push(res@.last()@));
                assert(all.take(order@.len() - k) =~= all.take(order@.len() - k - 1).push(
                    all[order@.len() - k - 1],
                ));
            }
        }
        proof {
            assert(all.len() == order@.len());
            if k == 0 {
                assert(all.take(order@.len() as int) =~= all);
            }
        }
        res
    }
}

// ---------------------------------------------------------------------------
// Paths
// ---------------------------------------------------------------------------

/// The longest pattern that paths can be held against, in bytes.
pub const MAX_PATTERN_BYTES: usize = 50_000;

/// The code of a character, of an ASCII letter that of its lower case. The two codes that
/// are no characters stand for the replacement character.
pub open spec fn folded(c: char) -> u32 {
    if 65 <= c as u32 <= 90 {
        (c as u32 + 32) as u32
    } else if c as u32 == 0xfffe || c as u32 == 0xffff {
        0xfffd
    } else {
        c as u32
    }
}

/// Whether all of a text fits all of a pattern in which `%` stands for any text and `_` for
/// any one character; ASCII letters fit in either case.
pub open spec fn covers(pattern: Seq<char>, text: Seq<char>) -> bool
    decreases pattern.len(), text.len(),
{
    if pattern.len() == 0 {
        text.len() == 0
    } else if pattern[0] == '%' {
        covers(pattern.skip(1), text) || (text.len() > 0 && covers(pattern, text.skip(1)))
    } else if text.len() == 0 {
        false
    } else if pattern[0] == '_' {
        covers(pattern.skip(1), text.skip(1))
    } else {
        folded(pattern[0]) == folded(text[0]) && covers(pattern.skip(1), text.skip(1))
    }
}

fn fold_letter(c: char) -> (code: u32)
    ensures
        code == folded(c),
{
    let code: u32 = c as u32;
    if 65 <= code && code <= 90 {
        code + 32
    } else if code == 0xfffe || code == 0xffff {
        0xfffd
    } else {
        code
    }
}

/// One row of the table that `text_covers` fills: how the pattern from `i` on fits each rest of
/// the text, from how the pattern after `i` does.
fn fit_row(pattern: &Vec<char>, text: &Vec<char>, i: usize, next: &Vec<bool>) -> (row: Vec<bool>)
    requires
        i < pattern@.len(),
        next@.len() == text@.len() + 1,
        forall|j: int|
            0 <= j < next@.len() ==> #[trigger] next@[j] == covers(
                pattern@.skip(i + 1),
                text@.skip(j),
            ),
    ensures
        row@.len() == text@.len() + 1,
        forall|j: int|
            0 <= j < row@.len() ==> #[trigger] row@[j] == covers(
                pattern@.skip(i as int),
                text@.skip(j),
            ),
{
    let n: usize = text.len();
    let c: char = pattern[i];
    let ghost rest = pattern@.skip(i as int);
    let mut row: Vec<bool> = Vec::new();
    let mut k: usize = 0;
    while k < next.len()
        invariant
            k <= next@.len(),
            row@.len() == k,
        decreases next@.len() - k,
    {
        row.push(false);
        k += 1;
    }
    let mut j: usize = next.len();
    while j > 0
        invariant
            j <= next@.len(),
            n == text@.len(),
            next@.len() == n + 1,
            row@.len() == n + 1,
            i < pattern@.len(),
            c == pattern@[i as int],
            rest == pattern@.skip(i as int),
            forall|m: int|
                0 <= m < next@.len() ==> #[trigger] next@[m] == covers(
                    pattern@.skip(i + 1),
                    text@.skip(m),
                ),
            forall|m: int| j <= m < row@.len() ==> #[trigger] row@[m] == covers(rest, text@.skip(m)),
        decreases j,
    {
        let at: usize = j - 1;
        let ghost tail = text@.skip(at as int);
        proof {
            assert(rest.skip(1) =~= pattern@.skip(i + 1));
            assert(rest[0] == c);
            if at < n {
                assert(tail.skip(1) =~= text@.skip(at + 1));
                assert(tail[0] == text@[at as int]);
            }
        }
        let fit: bool = if c == '%' {
            next[at] || (at < n && row[at + 1])
        } else if at == n {
            false
        } else if c == '_' {
            next[at + 1]
        } else {
            fold_letter(c) == fold_letter(text[at]) && next[at + 1]
        };
        row.set(at, fit);
        j -= 1;
    }
    row
}

fn text_covers(pattern: &str, text: &str) -> (r: bool)
    ensures
        r == covers(pattern@, text@),
{
    let p = chars_of(pattern);
    let s = chars_of(text);
    let n: usize = s.len();
    let mut row: Vec<bool> = Vec::new();
    let mut j: usize = 0;
    while j < n
        invariant
            j <= n == s@.len(),
            row@.len() == j,
            forall|m: int| 0 <= m < j ==> #[trigger] row@[m] == (m == n),
        decreases n - j,
    {
        row.push(false);
        j += 1;
    }
    row.push(true);
    let mut i: usize = p.len();
    proof {
        assert(p@.skip(i as int) =~= Seq::<char>::empty());
    }
    while i > 0
        invariant
            i <= p@.len(),
            row@.len() == s@.len() + 1,
            forall|m: int|
                0 <= m < row@.len() ==> #[trigger] row@[m] == covers(p@.skip(i as int), s@.skip(m)),
        decreases i,
    {
        let next = fit_row(&p, &s, i - 1, &row);
        row = next;
        i -= 1;
    }
    assert(p@.skip(0) =~= p@ && s@.skip(0) =~= s@);
    row[0]
}

/// A text up to the first NUL character.
pub open spec fn before_nul(s: Seq<char>) -> Seq<char> {
    s.take(position_of(s, '\0') as int)
}

/// Whether a text fits a pattern in which `%` stands for any text and `_` for any one
/// character; ASCII letters fit in either case. Both end where a NUL character stands in
/// them.
pub open spec fn like(pattern: Seq<char>, text: Seq<char>) -> bool {
    covers(before_nul(pattern), before_nul(text))
}

fn text_before_nul(s: &str) -> (res: String)
    ensures
        res@ == before_nul(s@),
{
    let v = chars_of(s);
    let mut i: usize = 0;
    while i < v.len() && v[i] != '\0'
        invariant
            i <= v@.len(),
            forall|j: int| 0 <= j < i ==> v@[j] != '\0',
        decreases v@.len() - i,
    {
        i += 1;
    }
    proof {
        lemma_position_unique(v@, '\0', i as int);
    }
    let res = text_of(&v, 0, i);
    assert(res@ =~= before_nul(s@));
    res
}

/// Whether a text fits a pattern.
pub fn fits(pattern: &str, text: &str) -> (r: bool)
    ensures
        r == like(pattern@, text@),
{
    text_covers(text_before_nul(pattern).as_str(), text_before_nul(text).as_str())
}

/// Whether a path lies under a prefix, read as a pattern that ends in `%`.
pub open spec fn under(path: Seq<char>, prefix: Seq<char>) -> bool {
    prefix.len() == 0 || like(prefix + seq!['%'], path)
}

/// Whether some file of a context would have to be held against a pattern that is too long.
pub open spec fn pattern_fails(fs: Seq<FileView>, context_id: i64, prefix: Seq<char>) -> bool {
    byte_len(prefix) + 1 > MAX_PATTERN_BYTES && exists|i: int|
        0 <= i < fs.len() && (#[trigger] fs[i]).context_id == context_id
}

/// Whether a file is there now.
pub open spec fn is_live(rs: Seq<RevisionView>, f: FileView) -> bool {
    was_there(latest(rs, f.id))
}

/// The paths of the files of a context, in the order of their numbers.
pub open spec fn paths_in(fs: Seq<FileView>, context_id: i64) -> Seq<Seq<char>>
    decreases fs.len(),
{
    if fs.len() == 0 {
        Seq::empty()
    } else if fs.last().context_id == context_id {
        paths_in(fs.drop_last(), context_id).push(fs.last().path)
    } else {
        paths_in(fs.drop_last(), context_id)
    }
}

/// The paths of the files of a context that are there now and lie under a prefix, in the
/// order of their numbers.
pub open spec fn live_paths_in(
    fs: Seq<FileView>,
    rs: Seq<RevisionView>,
    context_id: i64,
    prefix: Seq<char>,
) -> Seq<Seq<char>>
    decreases fs.len(),
{
    if fs.len() == 0 {
        Seq::empty()
    } else {
        let f = fs.last();
        let rest = live_paths_in(fs.drop_last(), rs, context_id, prefix);
        if f.context_id == context_id && is_live(rs, f) && under(f.path, prefix) {
            rest.push(f.path)
        } else {
            rest
        }
    }
}

/// The paths that a context has ever tracked, in order.
pub open spec fn all_paths(t: Tables, context_id: i64) -> Seq<Seq<char>> {
    sorted_texts(paths_in(t.files, context_id))
}

/// The paths of a context that are there now and lie under a prefix, in order.
pub open spec fn live_paths(t: Tables, context_id: i64, prefix: Seq<char>) -> Seq<Seq<char>> {
    sorted_texts(live_paths_in(t.files, t.revisions, context_id, prefix))
}

impl TimelineStore {
    /// The paths that a context has ever tracked, in order.
    pub fn list_all_paths(&self, context_id: i64) -> (res: Vec<String>)
        ensures
            texts(res@) == all_paths(self.tables(), context_id),
    {
        let rows = self.files();
        let ghost fs = self.tables().files;
        let mut res: Vec<String> = Vec::new();
        let mut i: usize = 0;
        assert(texts(res@) =~= paths_in(fs.take(0), context_id));
        while i < rows.len()
            invariant
                i <= rows@.len() == fs.len(),
                fs == self.tables().files,
                forall|j: int| 0 <= j < fs.len() ==> #[trigger] fs[j] == rows@[j]@,
                texts(res@) == paths_in(fs.take(i as int), context_id),
            decreases rows@.len() - i,
        {
            let ghost before = texts(res@);
            assert(fs.take(i + 1).drop_last() =~= fs.take(i as int));
            assert(fs[i as int] == rows@[i as int]@);
            if rows[i].context_id == context_id {
                res.push(rows[i].path.clone());
                assert(texts(res@) =~= before.push(rows@[i as int].path@));
            }
            i += 1;
        }
        assert(fs.take(i as int) =~= fs);
        sort_texts(res)
    }

    /// Whether the file of a number is there now.
    fn file_is_live(&self, file_id: i64) -> (r: bool)
        ensures
            r == was_there(latest(self.tables().revisions, file_id)),
    {
        match self.latest_revision_at(file_id, i64::MAX) {
            None => false,
            Some(p) => {
                let rows = self.revisions();
                assert(self.tables().revisions[p as int] == rows@[p as int]@);
                match rows[p].event_type {
                    EventType::Delete => false,
                    _ => true,
                }
            },
        }
    }

    /// The paths of a context that are there now, in order.
    pub fn list_current_live_paths(&self, context_id: i64) -> (res: Vec<String>)
        ensures
            texts(res@) == live_paths(self.tables(), context_id, Seq::empty()),
    {
        proof {
            reveal_strlit("");
            assert(""@ =~= Seq::<char>::empty());
        }
        self.live_paths_under("", context_id)
    }

    /// The paths of a context that are there now and lie under a prefix, in order. A prefix
    /// that is too long fails, if the context has files.
    pub fn list_current_live_paths_under(&self, prefix: &str, context_id: i64) -> (res: Result<
        Vec<String>,
        StoreError,
    >)
        ensures
            match res {
                Ok(paths) => {
                    &&& !pattern_fails(self.tables().files, context_id, prefix@)
                    &&& texts(paths@) == live_paths(self.tables(), context_id, prefix@)
                },
                Err(e) => {
                    &&& e == StoreError::PatternTooLong
                    &&& pattern_fails(self.tables().files, context_id, prefix@)
                },
            },
    {
        if size_of_text(prefix) >= MAX_PATTERN_BYTES {
            let rows = self.files();
            let ghost fs = self.tables().files;
            let mut i: usize = 0;
            while i < rows.len()
                invariant
                    i <= rows@.len() == fs.len(),
                    fs == self.tables().files,
                    byte_len(prefix@) >= MAX_PATTERN_BYTES,
                    forall|j: int| 0 <= j < fs.len() ==> #[trigger] fs[j] == rows@[j]@,
                    forall|j: int| 0 <= j < i ==> (#[trigger] fs[j]).context_id != context_id,
                decreases rows@.len() - i,
            {
                assert(fs[i as int] == rows@[i as int]@);
                if rows[i].context_id == context_id {
                    return Err(StoreError::PatternTooLong);
                }
                i += 1;
            }
        }
        Ok(self.live_paths_under(prefix, context_id))
    }

    fn live_paths_under(&self, prefix: &str, context_id: i64) -> (res: Vec<String>)
        ensures
            texts(res@) == live_paths(self.tables(), context_id, prefix@),
    {
        let rows = self.files();
        let ghost fs = self.tables().files;
        let ghost rs = self.tables().revisions;
        let everywhere = prefix.unicode_len() == 0;
        let mut pattern = prefix.to_owned();
        pattern.push('%');
        assert(pattern@ =~= prefix@ + seq!['%']);
        let mut res: Vec<String> = Vec::new();
        let mut i: usize = 0;
        assert(texts(res@) =~= live_paths_in(fs.take(0), rs, context_id, prefix@));
        while i < rows.len()
            invariant
                i <= rows@.len() == fs.len(),
                fs == self.tables().files,
                rs == self.tables().revisions,
                everywhere == (prefix@.len() == 0),
                pattern@ == prefix@ + seq!['%'],
                forall|j: int| 0 <= j < fs.len() ==> #[trigger] fs[j] == rows@[j]@,
                texts(res@) == live_paths_in(fs.take(i as int), rs, context_id, prefix@),
            decreases rows@.len() - i,
        {
            let ghost before = texts(res@);
            assert(fs.take(i + 1).drop_last() =~= fs.take(i as int));
            assert(fs[i as int] == rows@[i as int]@);
            if rows[i].context_id == context_id && self.file_is_live(rows[i].id) && (everywhere
                || fits(pattern.as_str(), rows[i].path.as_str())) {
                res.push(rows[i].path.clone());
                assert(texts(res@) =~= before.push(rows@[i as int].path@));
            }
            i += 1;
        }
        assert(fs.take(i as int) =~= fs);
        sort_texts(res)
    }
}

// ---------------------------------------------------------------------------
// Ends of many files
// ---------------------------------------------------------------------------

/// The tables with the ends of files recorded one after the other, and how many took a
/// new revision. A failure ends it; what was recorded before stays.
pub open spec fn with_deletes(
    t: Tables,
    paths: Seq<Seq<char>>,
    recorded_at_ms: i64,
    context_id: i64,
) -> (Tables, Result<nat, StoreError>)
    decreases paths.len(),
{
    if paths.len() == 0 {
        (t, Ok(0))
    } else {
        match with_deletes(t, paths.drop_last(), recorded_at_ms, context_id) {
            (u, Err(e)) => (u, Err(e)),
            (u, Ok(n)) => match with_delete(u, paths.last(), recorded_at_ms, context_id) {
                Ok((v, added)) => (
                    v,
                    Ok(
                        if added {
                            n + 1
                        } else {
                            n
                        },
                    ),
                ),
                Err(e) => (u, Err(e)),
            },
        }
    }
}

/// The tables with the ends of all files recorded that are there and lie under a prefix,
/// and how many there were.
pub open spec fn with_deletes_under(
    t: Tables,
    prefix: Seq<char>,
    recorded_at_ms: i64,
    context_id: i64,
) -> (Tables, Result<nat, StoreError>) {
    if pattern_fails(t.files, context_id, prefix) {
        (t, Err(StoreError::PatternTooLong))
    } else {
        with_deletes(t, live_paths(t, context_id, prefix), recorded_at_ms, context_id)
    }
}

/// A failure ends the recording of several ends: what comes after it does not count.
pub proof fn lemma_deletes_fail(
    t: Tables,
    paths: Seq<Seq<char>>,
    recorded_at_ms: i64,
    context_id: i64,
    n: int,
)
    requires
        0 <= n <= paths.len(),
        with_deletes(t, paths.take(n), recorded_at_ms, context_id).1 is Err,
    ensures
        with_deletes(t, paths, recorded_at_ms, context_id) == with_deletes(
            t,
            paths.take(n),
            recorded_at_ms,
            context_id,
        ),
    decreases paths.len(),
{
    if n == paths.len() {
        assert(paths.take(n) =~= paths);
    } else {
        assert(paths.drop_last().take(n) =~= paths.take(n));
        lemma_deletes_fail(t, paths.drop_last(), recorded_at_ms, context_id, n);
    }
}

impl TimelineStore {
    /// Records the end of every file that is there and lies under a prefix, and tells how
    /// many there were. A failure ends it; what was recorded before stays.
    pub fn record_delete_prefix(
        &mut self,
        prefix: &str,
        recorded_at_ms: i64,
        context_id: i64,
    ) -> (res: Result<usize, StoreError>)
        requires
            old(self).wf(),
        ensures
            final(self).wf(),
            old(self).tables().linked() ==> final(self).tables().linked(),
            final(self).same_project(old(self)),
            ({
                let expected = with_deletes_under(
                    old(self).tables(),
                    prefix@,
                    recorded_at_ms,
                    context_id,
                );
                &&& final(self).tables() == expected.0
                &&& match res {
                    Ok(n) => expected.1 == Ok::<nat, StoreError>(n as nat),
                    Err(e) => expected.1 == Err::<nat, StoreError>(e),
                }
            }),
            old(self).tables().wf() && sound(old(self).tables()) ==> sound(final(self).tables()),
            res is Ok && old(self).tables().wf() && nothing_after(
                old(self).tables(),
                context_id,
                recorded_at_ms,
            ) ==> ends_at(
                old(self).tables(),
                final(self).tables(),
                live_paths(old(self).tables(), context_id, prefix@),
                recorded_at_ms,
                context_id,
            ),
    {
        let paths = match self.list_current_live_paths_under(prefix, context_id) {
            Ok(paths) => paths,
            Err(e) => {
                return Err(e);
            },
        };
        let ghost t = self.tables();
        let ghost all = texts(paths@);
        let mut deleted: usize = 0;
        let mut i: usize = 0;
        while i < paths.len()
            invariant
                i <= paths@.len(),
                deleted <= i,
                all == texts(paths@),
                self.wf(),
                self.same_project(old(self)),
                with_deletes(t, all.take(i as int), recorded_at_ms, context_id) == (
                    self.tables(),
                    Ok::<nat, StoreError>(deleted as nat),
                ),
                t == old(self).tables(),
                all == live_paths(t, context_id, prefix@),
                !pattern_fails(t.files, context_id, prefix@),
                t.linked() ==> self.tables().linked(),
                t.wf() && sound(t) ==> sound(self.tables()),
                t.wf() && nothing_after(t, context_id, recorded_at_ms) ==> {
                    &&& nothing_after(self.tables(), context_id, recorded_at_ms)
                    &&& ends_at(
                        t,
                        self.tables(),
                        all.take(i as int),
                        recorded_at_ms,
                        context_id,
                    )
                },
            decreases paths@.len() - i,
        {
            let ghost now = self.tables();
            assert(all.take(i + 1).drop_last() =~= all.take(i as int));
            assert(all.take(i + 1).last() == paths@[i as int]@);
            match self.record_delete(paths[i].as_str(), recorded_at_ms, context_id) {
                Ok(added) => {
                    if added {
                        deleted += 1;
                    }
                    proof {
                        if t.wf() && nothing_after(t, context_id, recorded_at_ms) {
                            assert(all.take(i as int).push(all[i as int]) =~= all.take(i + 1));
                            lemma_one_more_end(
                                t,
                                now,
                                self.tables(),
                                all.take(i as int),
                                all[i as int],
                                recorded_at_ms,
                                context_id,
                            );
                        }
                    }
                },
                Err(e) => {
                    proof {
                        lemma_deletes_fail(t, all, recorded_at_ms, context_id, i + 1);
                    }
                    return Err(e);
                },
            }
            i += 1;
        }
        assert(all.take(i as int) =~= all);
        Ok(deleted)
    }
}

// ---------------------------------------------------------------------------
// Status
// ---------------------------------------------------------------------------

/// What is known of the watcher.
#[derive(Debug, Clone, Copy, PartialEq, Eq, Structural)]
pub struct WatcherStatus {
    pub active: bool,
    pub pid: Option<i64>,
    pub started_at_ms: Option<i64>,
    pub heartbeat_ms: Option<i64>,
}

impl Default for WatcherStatus {
    fn default() -> (w: Self)
        ensures
            w == (WatcherStatus {
                active: false,
                pid: None,
                started_at_ms: None,
                heartbeat_ms: None,
            }),
    {
        WatcherStatus { active: false, pid: None, started_at_ms: None, heartbeat_ms: None }
    }
}

/// The counts of a timeline, and its watcher.
#[derive(Debug, Clone, Copy, PartialEq, Eq, Structural)]
pub struct StatusSummary {
    pub watcher: WatcherStatus,
    pub tracked_files: i64,
    pub live_files: i64,
    pub revision_count: i64,
}

/// What is known of the watcher at a time: it is active while its last sign of life is
/// not stale.
pub open spec fn watcher_status(w: Option<WatcherView>, now_ms: i64) -> WatcherStatus {
    match w {
        None => WatcherStatus { active: false, pid: None, started_at_ms: None, heartbeat_ms: None },
        Some(w) => WatcherStatus {
            active: now_ms - w.heartbeat_ms <= WATCHER_STALE_AFTER_MS,
            pid: Some(w.pid),
            started_at_ms: Some(w.started_at_ms),
            heartbeat_ms: Some(w.heartbeat_ms),
        },
    }
}

/// The number of files that are there now.
pub open spec fn live_count(fs: Seq<FileView>, rs: Seq<RevisionView>) -> nat
    decreases fs.len(),
{
    if fs.len() == 0 {
        0
    } else {
        live_count(fs.drop_last(), rs) + (if is_live(rs, fs.last()) {
            1nat
        } else {
            0nat
        })
    }
}

/// A count, as far as it fits in 63 bits.
pub open spec fn counted(n: nat) -> int {
    if n <= i64::MAX {
        n as int
    } else {
        i64::MAX as int
    }
}

fn count_of(n: usize) -> (c: i64)
    ensures
        c == counted(n as nat),
{
    if n as u128 <= i64::MAX as u128 {
        n as i64
    } else {
        i64::MAX
    }
}

impl TimelineStore {
    /// The counts of the timeline, and what is known of its watcher.
    pub fn status(&self, now_ms: i64) -> (s: StatusSummary)
        requires
            self.wf(),
        ensures
            s.watcher == watcher_status(self.tables().watcher, now_ms),
            s.tracked_files == counted(self.tables().files.len()),
            s.revision_count == counted(self.tables().revisions.len()),
            s.live_files == counted(live_count(self.tables().files, self.tables().revisions)),
    {
        let files = self.files();
        let ghost fs = self.tables().files;
        let ghost rs = self.tables().revisions;
        let tracked_files: i64 = count_of(files.len());
        let revision_count: i64 = count_of(self.revisions().len());
        let mut live_files: usize = 0;
        let mut i: usize = 0;
        while i < files.len()
            invariant
                i <= files@.len() == fs.len(),
                fs == self.tables().files,
                rs == self.tables().revisions,
                forall|j: int| 0 <= j < fs.len() ==> #[trigger] fs[j] == files@[j]@,
                0 <= live_files <= i,
                live_files == live_count(fs.take(i as int), rs),
            decreases files@.len() - i,
        {
            assert(fs.take(i + 1).drop_last() =~= fs.take(i as int));
            assert(fs[i as int] == files@[i as int]@);
            if self.file_is_live(files[i].id) {
                live_files += 1;
            }
            i += 1;
        }
        assert(fs.take(i as int) =~= fs);
        let watcher = match self.watcher() {
            None => WatcherStatus::default(),
            Some(w) => WatcherStatus {
                active: now_ms as i128 - w.heartbeat_ms as i128 <= WATCHER_STALE_AFTER_MS as i128,
                pid: Some(w.pid),
                started_at_ms: Some(w.started_at_ms),
                heartbeat_ms: Some(w.heartbeat_ms),
            },
        };
        StatusSummary { watcher, tracked_files, live_files: count_of(live_files), revision_count }
    }
}

} // verus!
