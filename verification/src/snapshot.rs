//! Recording what is found on disk: all files of a project at once, or one path that
//! changed.
use vstd::prelude::*;
use vstd::string::*;

use crate::changes::{
    follows_observed,
    lemma_found_changes_one_file,
    lemma_missing_is_absent,
};
use crate::filter::{path_ignored, ProjectFilter};
use crate::path::{
    join_path,
    joined_path,
    normalize_relative_path,
    normalized,
    parts,
    parts_begin_with,
    parts_of,
    path_message,
    same_path,
    starts_under,
    PathError,
};
use crate::store::laws::{
    law_text_keeps_other_states,
    lemma_one_more_end,
    lemma_recording_leaves_nothing_after,
    lemma_unlisted_path_is_absent,
    newest_of,
};
use crate::store::listing::{lemma_deletes_fail, live_paths, with_deletes, with_deletes_under};
use crate::store::lookup::state_at;
use crate::store::record::{asks_interval, with_delete, with_text};
use crate::store::newest::lemma_text_leaves_newest;
use crate::store::sound::{digest_tells, ends_at, newest_reads_back, nothing_after, sound};
use crate::store::tables::{store_message, StoreError, Tables, TimelineStore};
use crate::text::{opt_text, same_text, texts};

verus! {

/// How many files a scan found changed, and how many gone.
#[derive(Debug, Clone, Copy, PartialEq, Eq, Structural)]
pub struct ScanSummary {
    pub tracked_files: usize,
    pub deleted_files: usize,
}

impl Default for ScanSummary {
    fn default() -> (s: Self)
        ensures
            s == (ScanSummary { tracked_files: 0, deleted_files: 0 }),
    {
        ScanSummary { tracked_files: 0, deleted_files: 0 }
    }
}

/// Why what was found could not be recorded.
#[derive(Debug, Clone, Copy, PartialEq, Eq, Structural)]
pub enum SnapshotError {
    Path(PathError),
    Store(StoreError),
}

impl SnapshotError {
    /// What the error says of a path to the user.
    pub fn message(&self, root: &str, path: &str) -> (m: String)
        ensures
            m@ == (match *self {
                SnapshotError::Path(e) => path_message(e, root@, path@),
                SnapshotError::Store(e) => store_message(e),
            }),
    {
        match self {
            SnapshotError::Path(e) => e.message(root, path),
            SnapshotError::Store(e) => e.message(),
        }
    }
}

/// A tracked file that was found on disk.
#[derive(Debug, Clone)]
pub struct ScannedFile {
    pub path: String,
    pub text: String,
}

/// The view of a [`ScannedFile`].
pub struct Scanned {
    pub path: Seq<char>,
    pub text: Seq<char>,
}

impl View for ScannedFile {
    type V = Scanned;

    open spec fn view(&self) -> Scanned {
        Scanned { path: self.path@, text: self.text@ }
    }
}

/// The views of scanned files.
pub open spec fn scanned_views(v: Seq<ScannedFile>) -> Seq<Scanned> {
    v.map_values(|f: ScannedFile| f@)
}

/// How far a scan has come: how many files had changed, and which paths were seen.
pub struct ScanView {
    pub changed: nat,
    pub seen: Seq<Seq<char>>,
}

/// A scan that has found nothing yet.
pub open spec fn no_scan() -> ScanView {
    ScanView { changed: 0, seen: Seq::empty() }
}

/// The tables and the scan after one more file was found.
pub open spec fn with_scanned_file(
    t: Tables,
    scan: ScanView,
    root: Seq<char>,
    file: Scanned,
    recorded_at_ms: i64,
    context_id: i64,
    interval: i64,
) -> (Tables, Result<ScanView, SnapshotError>) {
    match normalized(root, file.path) {
        Err(e) => (t, Err(SnapshotError::Path(e))),
        Ok(path) => match with_text(t, path, file.text, recorded_at_ms, context_id, interval) {
            Err(e) => (t, Err(SnapshotError::Store(e))),
            Ok((u, added)) => (
                u,
                Ok(
                    ScanView {
                        changed: if added {
                            scan.changed + 1
                        } else {
                            scan.changed
                        },
                        seen: scan.seen.push(path),
                    },
                ),
            ),
        },
    }
}

/// The tables and the scan after files were found one after the other. A failure ends it;
/// what was recorded before stays.
pub open spec fn with_scanned_files(
    t: Tables,
    root: Seq<char>,
    files: Seq<Scanned>,
    recorded_at_ms: i64,
    context_id: i64,
    interval: i64,
) -> (Tables, Result<ScanView, SnapshotError>)
    decreases files.len(),
{
    if files.len() == 0 {
        (t, Ok(no_scan()))
    } else {
        match with_scanned_files(
            t,
            root,
            files.drop_last(),
            recorded_at_ms,
            context_id,
            interval,
        ) {
            (u, Err(e)) => (u, Err(e)),
            (u, Ok(scan)) => with_scanned_file(
                u,
                scan,
                root,
                files.last(),
                recorded_at_ms,
                context_id,
                interval,
            ),
        }
    }
}

/// Those of the given paths that were not seen.
pub open spec fn unseen(paths: Seq<Seq<char>>, seen: Seq<Seq<char>>) -> Seq<Seq<char>>
    decreases paths.len(),
{
    if paths.len() == 0 {
        Seq::empty()
    } else if seen.contains(paths.last()) {
        unseen(paths.drop_last(), seen)
    } else {
        unseen(paths.drop_last(), seen).push(paths.last())
    }
}

/// The tables at the end of a scan: files that are there by what was recorded, but were
/// not seen, are recorded as gone. How many there were comes with it.
pub open spec fn with_unseen_gone(
    t: Tables,
    seen: Seq<Seq<char>>,
    recorded_at_ms: i64,
    context_id: i64,
) -> (Tables, Result<nat, StoreError>) {
    with_deletes(
        t,
        unseen(live_paths(t, context_id, Seq::empty()), seen),
        recorded_at_ms,
        context_id,
    )
}

/// The tables after a whole scan, and what it found.
pub open spec fn with_scan(
    t: Tables,
    root: Seq<char>,
    files: Seq<Scanned>,
    recorded_at_ms: i64,
    context_id: i64,
    interval: i64,
) -> (Tables, Result<(nat, nat), SnapshotError>) {
    match with_scanned_files(t, root, files, recorded_at_ms, context_id, interval) {
        (u, Err(e)) => (u, Err(e)),
        (u, Ok(scan)) => match with_unseen_gone(u, scan.seen, recorded_at_ms, context_id) {
            (v, Err(e)) => (v, Err(SnapshotError::Store(e))),
            (v, Ok(gone)) => (v, Ok((scan.changed, gone))),
        },
    }
}

/// A scan of a project that is under way.
#[derive(Debug)]
pub struct ProjectScan {
    changed: usize,
    seen: Vec<String>,
}

impl View for ProjectScan {
    type V = ScanView;

    closed spec fn view(&self) -> ScanView {
        ScanView { changed: self.changed as nat, seen: texts(self.seen@) }
    }
}

fn is_among(paths: &Vec<String>, path: &str) -> (r: bool)
    ensures
        r == texts(paths@).contains(path@),
{
    let ghost all = texts(paths@);
    let mut i: usize = 0;
    while i < paths.len()
        invariant
            i <= paths@.len(),
            all == texts(paths@),
            forall|j: int| 0 <= j < i ==> #[trigger] all[j] != path@,
        decreases paths@.len() - i,
    {
        assert(all[i as int] == paths@[i as int]@);
        if same_text(paths[i].as_str(), path) {
            return true;
        }
        i += 1;
    }
    false
}

impl ProjectScan {
    /// Whether no more files had changed than were seen.
    pub closed spec fn wf(&self) -> bool {
        self.changed <= self.seen@.len()
    }

    /// A scan that has found nothing yet.
    pub fn new() -> (scan: Self)
        ensures
            scan.wf(),
            scan@ == no_scan(),
    {
        let scan = ProjectScan { changed: 0, seen: Vec::new() };
        assert(scan@.seen =~= Seq::<Seq<char>>::empty());
        scan
    }

    /// Records a tracked file that was found on disk.
    pub fn record_file(
        &mut self,
        root: &str,
        store: &mut TimelineStore,
        path: &str,
        text: &str,
        recorded_at_ms: i64,
        context_id: i64,
    ) -> (res: Result<(), SnapshotError>)
        requires
            old(self).wf(),
            old(store).wf(),
            old(store).settings().full_snapshot_interval != 0 || !file_asks_interval(
                old(store).tables(),
                root@,
                path@,
                text@,
                context_id,
            ),
        ensures
            final(self).wf(),
            final(store).wf(),
            old(store).tables().linked() ==> final(store).tables().linked(),
            final(store).same_project(old(store)),
            ({
                let expected = with_scanned_file(
                    old(store).tables(),
                    old(self)@,
                    root@,
                    Scanned { path: path@, text: text@ },
                    recorded_at_ms,
                    context_id,
                    old(store).settings().full_snapshot_interval,
                );
                &&& final(store).tables() == expected.0
                &&& match res {
                    Ok(_) => expected.1 == Ok::<ScanView, SnapshotError>(final(self)@),
                    Err(e) => expected.1 == Err::<ScanView, SnapshotError>(e) && *final(self)
                        == *old(self),
                }
            }),
            old(store).tables().wf() && sound(old(store).tables()) ==> sound(final(store).tables()),
            old(store).tables().wf() && nothing_after(
                old(store).tables(),
                context_id,
                recorded_at_ms,
            ) ==> nothing_after(final(store).tables(), context_id, recorded_at_ms),
            // What was found is read back.
            res is Ok && old(store).tables().wf() && nothing_after(
                old(store).tables(),
                context_id,
                recorded_at_ms,
            ) && newest_reads_back(
                old(store).tables(),
                normalized(root@, path@)->Ok_0,
                context_id,
            ) && digest_tells(
                old(store).tables(),
                normalized(root@, path@)->Ok_0,
                context_id,
                text@,
            ) ==> forall|at_ms: i64|
                at_ms >= recorded_at_ms ==> #[trigger] state_at(
                    final(store).tables(),
                    normalized(root@, path@)->Ok_0,
                    at_ms,
                    context_id,
                ) == Ok::<Option<Seq<char>>, StoreError>(Some(text@)),
    {
        let ghost t = store.tables();
        let relative = match normalize_relative_path(root, path) {
            Ok(relative) => relative,
            Err(e) => {
                return Err(SnapshotError::Path(e));
            },
        };
        proof {
            if t.wf() && nothing_after(t, context_id, recorded_at_ms) {
                lemma_recording_leaves_nothing_after(
                    t,
                    relative@,
                    text@,
                    recorded_at_ms,
                    context_id,
                    store.settings().full_snapshot_interval,
                );
            }
        }
        match store.record_text(relative.as_str(), text, recorded_at_ms, context_id) {
            Ok(added) => {
                let ghost before = texts(self.seen@);
                let ghost name = relative@;
                self.seen.push(relative);
                assert(texts(self.seen@) =~= before.push(name));
                let count: usize = self.seen.len();
                if added {
                    assert(self.changed < count);
                    self.changed = self.changed + 1;
                }
                Ok(())
            },
            Err(e) => Err(SnapshotError::Store(e)),
        }
    }

    /// Ends the scan: files that are there by what was recorded, but were not seen, are
    /// recorded as gone.
    pub fn finish(
        self,
        store: &mut TimelineStore,
        recorded_at_ms: i64,
        context_id: i64,
    ) -> (res: Result<ScanSummary, SnapshotError>)
        requires
            self.wf(),
            old(store).wf(),
        ensures
            final(store).wf(),
            old(store).tables().linked() ==> final(store).tables().linked(),
            final(store).same_project(old(store)),
            ({
                let expected = with_unseen_gone(
                    old(store).tables(),
                    self@.seen,
                    recorded_at_ms,
                    context_id,
                );
                &&& final(store).tables() == expected.0
                &&& match res {
                    Ok(summary) => {
                        &&& summary.tracked_files == self@.changed
                        &&& expected.1 == Ok::<nat, StoreError>(summary.deleted_files as nat)
                    },
                    Err(e) => expected.1 is Err && e == SnapshotError::Store(expected.1->Err_0),
                }
            }),
            old(store).tables().wf() && sound(old(store).tables()) ==> sound(final(store).tables()),
            // Files that were not seen are absent, the others are as they were.
            res is Ok && old(store).tables().wf() && nothing_after(
                old(store).tables(),
                context_id,
                recorded_at_ms,
            ) ==> forall|
                path: Seq<char>,
                at_ms: i64,
            |
                at_ms >= recorded_at_ms ==> #[trigger] state_at(
                    final(store).tables(),
                    path,
                    at_ms,
                    context_id,
                ) == (if self@.seen.contains(path) {
                    state_at(old(store).tables(), path, at_ms, context_id)
                } else {
                    Ok::<Option<Seq<char>>, StoreError>(None)
                }),
    {
        let ghost t = store.tables();
        let live = store.list_current_live_paths(context_id);
        let ghost all = texts(live@);
        let ghost seen = texts(self.seen@);
        let ghost expected = with_unseen_gone(t, seen, recorded_at_ms, context_id);
        let mut deleted: usize = 0;
        let mut i: usize = 0;
        while i < live.len()
            invariant
                i <= live@.len(),
                deleted <= i,
                all == texts(live@),
                all == live_paths(t, context_id, Seq::empty()),
                seen == texts(self.seen@),
                t == old(store).tables(),
                store.wf(),
                store.same_project(old(store)),
                expected == with_unseen_gone(t, seen, recorded_at_ms, context_id),
                self@.seen == seen,
                with_deletes(t, unseen(all.take(i as int), seen), recorded_at_ms, context_id) == (
                    store.tables(),
                    Ok::<nat, StoreError>(deleted as nat),
                ),
                t.linked() ==> store.tables().linked(),
            t.wf() && sound(t) ==> sound(store.tables()),
                t.wf() && nothing_after(t, context_id, recorded_at_ms) ==> {
                    &&& nothing_after(store.tables(), context_id, recorded_at_ms)
                    &&& ends_at(
                        t,
                        store.tables(),
                        unseen(all.take(i as int), seen),
                        recorded_at_ms,
                        context_id,
                    )
                },
            decreases live@.len() - i,
        {
            let ghost done = all.take(i + 1);
            let ghost now = store.tables();
            proof {
                assert(done.drop_last() =~= all.take(i as int));
                assert(done.last() == live@[i as int]@);
            }
            if !is_among(&self.seen, live[i].as_str()) {
                proof {
                    let before = unseen(all.take(i as int), seen);
                    assert(before.push(done.last()).drop_last() =~= before);
                }
                match store.record_delete(live[i].as_str(), recorded_at_ms, context_id) {
                    Ok(added) => {
                        if added {
                            deleted += 1;
                        }
                        proof {
                            if t.wf() && nothing_after(t, context_id, recorded_at_ms) {
                                lemma_one_more_end(
                                    t,
                                    now,
                                    store.tables(),
                                    unseen(all.take(i as int), seen),
                                    done.last(),
                                    recorded_at_ms,
                                    context_id,
                                );
                            }
                        }
                    },
                    Err(e) => {
                        proof {
                            lemma_unseen_take(all, seen, i + 1);
                            lemma_deletes_fail(
                                t,
                                unseen(all, seen),
                                recorded_at_ms,
                                context_id,
                                unseen(done, seen).len() as int,
                            );
                        }
                        return Err(SnapshotError::Store(e));
                    },
                }
            }
            i += 1;
        }
        assert(all.take(i as int) =~= all);
        proof {
            if t.wf() && nothing_after(t, context_id, recorded_at_ms) {
                assert forall|path: Seq<char>, at_ms: i64|
                    at_ms >= recorded_at_ms implies #[trigger] state_at(
                    store.tables(),
                    path,
                    at_ms,
                    context_id,
                ) == (if seen.contains(path) {
                    state_at(t, path, at_ms, context_id)
                } else {
                    Ok::<Option<Seq<char>>, StoreError>(None)
                }) by {
                    lemma_unseen_contains(all, seen, path);
                    if !all.contains(path) {
                        lemma_unlisted_path_is_absent(
                            t,
                            Seq::empty(),
                            path,
                            recorded_at_ms,
                            at_ms,
                            context_id,
                        );
                    }
                }
            }
        }
        Ok(ScanSummary { tracked_files: self.changed, deleted_files: deleted })
    }
}

/// Those that were not seen are the paths that are not among the seen.
pub proof fn lemma_unseen_contains(paths: Seq<Seq<char>>, seen: Seq<Seq<char>>, path: Seq<char>)
    ensures
        unseen(paths, seen).contains(path) <==> paths.contains(path) && !seen.contains(path),
    decreases paths.len(),
{
    if paths.len() > 0 {
        let rest = paths.drop_last();
        lemma_unseen_contains(rest, seen, path);
        let before = unseen(rest, seen);
        let after = unseen(paths, seen);
        if paths.contains(path) && paths.last() != path {
            let k = choose|k: int| 0 <= k < paths.len() && paths[k] == path;
            assert(rest[k] == path);
        }
        if rest.contains(path) {
            let k = choose|k: int| 0 <= k < rest.len() && rest[k] == path;
            assert(paths[k] == path);
        }
        if before.contains(path) {
            let k = choose|k: int| 0 <= k < before.len() && before[k] == path;
            assert(after[k] == path);
        }
        if after.contains(path) && !before.contains(path) {
            let k = choose|k: int| 0 <= k < after.len() && after[k] == path;
            if k < before.len() {
                assert(before[k] == path);
            }
        }
        if !seen.contains(paths.last()) {
            assert(after[before.len() as int] == paths.last());
        }
        assert(paths[paths.len() - 1] == paths.last());
    }
}

proof fn lemma_unseen_take(paths: Seq<Seq<char>>, seen: Seq<Seq<char>>, n: int)
    requires
        0 <= n <= paths.len(),
    ensures
        unseen(paths.take(n), seen).len() <= unseen(paths, seen).len(),
        unseen(paths, seen).take(unseen(paths.take(n), seen).len() as int) == unseen(
            paths.take(n),
            seen,
        ),
    decreases paths.len(),
{
    if n == paths.len() {
        assert(paths.take(n) =~= paths);
        assert(unseen(paths, seen).take(unseen(paths, seen).len() as int) =~= unseen(paths, seen));
    } else {
        assert(paths.drop_last().take(n) =~= paths.take(n));
        lemma_unseen_take(paths.drop_last(), seen, n);
        let k = unseen(paths.take(n), seen).len() as int;
        assert(unseen(paths, seen).take(k) =~= unseen(paths.drop_last(), seen).take(k));
    }
}

proof fn lemma_scan_stops(
    t: Tables,
    root: Seq<char>,
    files: Seq<Scanned>,
    recorded_at_ms: i64,
    context_id: i64,
    interval: i64,
    n: int,
)
    requires
        0 <= n <= files.len(),
        with_scanned_files(t, root, files.take(n), recorded_at_ms, context_id, interval).1 is Err,
    ensures
        with_scanned_files(t, root, files, recorded_at_ms, context_id, interval)
            == with_scanned_files(
            t,
            root,
            files.take(n),
            recorded_at_ms,
            context_id,
            interval,
        ),
    decreases files.len(),
{
    if n == files.len() {
        assert(files.take(n) =~= files);
    } else {
        assert(files.drop_last().take(n) =~= files.take(n));
        lemma_scan_stops(
            t,
            root,
            files.drop_last(),
            recorded_at_ms,
            context_id,
            interval,
            n,
        );
    }
}

/// Whether a scan looks at a path: at the project directory itself, and at all below it
/// that is not ignored.
pub fn scan_enters(root: &str, path: &str, filter: &ProjectFilter, is_dir: bool) -> (r: bool)
    requires
        filter.wf(),
        parts(path@) == parts(root@) || filter.can_tell(path@, is_dir),
    ensures
        r == (parts(path@) == parts(root@) || !path_ignored(
            filter.root(),
            filter.lines(),
            path@,
            is_dir,
        )),
{
    same_path(path, root) || !filter.is_path_ignored(path, is_dir)
}

/// The paths under which files were found, inside the project.
pub open spec fn scanned_paths(root: Seq<char>, files: Seq<Scanned>) -> Seq<Seq<char>> {
    files.map_values(|f: Scanned| normalized(root, f.path)->Ok_0)
}

/// Whether recording what a file was found to hold asks how far full copies lie apart.
pub open spec fn file_asks_interval(
    t: Tables,
    root: Seq<char>,
    path: Seq<char>,
    text: Seq<char>,
    context_id: i64,
) -> bool {
    match normalized(root, path) {
        Ok(relative) => asks_interval(t, relative, text, context_id),
        Err(_) => false,
    }
}

/// Whether recording one of the files that were found, after those before it, asks how far
/// full copies lie apart.
pub open spec fn scan_asks_interval(
    t: Tables,
    root: Seq<char>,
    files: Seq<Scanned>,
    recorded_at_ms: i64,
    context_id: i64,
    interval: i64,
) -> bool {
    exists|k: int|
        0 <= k < files.len() && ({
            let (u, res) = #[trigger] with_scanned_files(
                t,
                root,
                files.take(k),
                recorded_at_ms,
                context_id,
                interval,
            );
            res is Ok && file_asks_interval(u, root, files[k].path, files[k].text, context_id)
        })
}

/// Whether recording what was found under a path asks how far full copies lie apart.
pub open spec fn observed_asks_interval(
    t: Tables,
    root: Seq<char>,
    whole: Seq<char>,
    observed: ObservedView,
    context_id: i64,
) -> bool {
    match observed {
        ObservedView::File(Some(text)) => file_asks_interval(t, root, whole, text, context_id),
        _ => false,
    }
}

/// Whether no path was found twice, the newest revision of every file that was found gives
/// back what it stands for, and the digest tells that from the text that was found.
pub open spec fn scan_is_clear(
    t: Tables,
    root: Seq<char>,
    files: Seq<Scanned>,
    context_id: i64,
) -> bool {
    &&& scanned_paths(root, files).no_duplicates()
    &&& forall|i: int|
        0 <= i < files.len() ==> {
            let path = #[trigger] scanned_paths(root, files)[i];
            &&& newest_reads_back(t, path, context_id)
            &&& digest_tells(t, path, context_id, files[i].text)
        }
}

/// Whether what was found is what is read from a time on, while other files are as they
/// were.
pub open spec fn reads_found(
    before: Tables,
    after: Tables,
    root: Seq<char>,
    files: Seq<Scanned>,
    recorded_at_ms: i64,
    context_id: i64,
) -> bool {
    &&& forall|i: int, at_ms: i64|
        0 <= i < files.len() && at_ms >= recorded_at_ms ==> #[trigger] state_at(
            after,
            scanned_paths(root, files)[i],
            at_ms,
            context_id,
        ) == Ok::<Option<Seq<char>>, StoreError>(Some(files[i].text))
    &&& forall|path: Seq<char>, at_ms: i64|
        !scanned_paths(root, files).contains(path) ==> #[trigger] state_at(
            after,
            path,
            at_ms,
            context_id,
        ) == state_at(before, path, at_ms, context_id)
    &&& forall|path: Seq<char>|
        !scanned_paths(root, files).contains(path) && newest_reads_back(before, path, context_id)
            ==> #[trigger] newest_reads_back(after, path, context_id)
}

proof fn lemma_next_is_clear(
    t: Tables,
    now: Tables,
    root: Seq<char>,
    files: Seq<Scanned>,
    at: int,
    recorded_at_ms: i64,
    context_id: i64,
)
    requires
        0 <= at < files.len(),
        scan_is_clear(t, root, files, context_id),
        reads_found(t, now, root, files.take(at), recorded_at_ms, context_id),
    ensures
        newest_reads_back(now, scanned_paths(root, files)[at], context_id),
        digest_tells(now, scanned_paths(root, files)[at], context_id, files[at].text),
{
    let paths = scanned_paths(root, files);
    let before = scanned_paths(root, files.take(at));
    assert(before =~= paths.take(at));
    assert(!before.contains(paths[at]));
    assert(digest_tells(t, paths[at], context_id, files[at].text));
    assert(state_at(now, paths[at], i64::MAX, context_id) == state_at(
        t,
        paths[at],
        i64::MAX,
        context_id,
    ));
}

proof fn lemma_one_more_found(
    t: Tables,
    u: Tables,
    v: Tables,
    root: Seq<char>,
    files: Seq<Scanned>,
    recorded_at_ms: i64,
    context_id: i64,
    interval: i64,
)
    requires
        files.len() > 0,
        u.wf(),
        scanned_paths(root, files).no_duplicates(),
        reads_found(t, u, root, files.drop_last(), recorded_at_ms, context_id),
        with_text(
            u,
            scanned_paths(root, files).last(),
            files.last().text,
            recorded_at_ms,
            context_id,
            interval,
        ) matches Ok((w, _)) && w == v,
        forall|at_ms: i64|
            at_ms >= recorded_at_ms ==> #[trigger] state_at(
                v,
                scanned_paths(root, files).last(),
                at_ms,
                context_id,
            ) == Ok::<Option<Seq<char>>, StoreError>(Some(files.last().text)),
    ensures
        reads_found(t, v, root, files, recorded_at_ms, context_id),
{
    let paths = scanned_paths(root, files);
    let last = paths.last();
    let rest = scanned_paths(root, files.drop_last());
    assert(rest =~= paths.drop_last());
    assert forall|i: int, at_ms: i64|
        0 <= i < files.len() && at_ms >= recorded_at_ms implies #[trigger] state_at(
        v,
        paths[i],
        at_ms,
        context_id,
    ) == Ok::<Option<Seq<char>>, StoreError>(Some(files[i].text)) by {
        if i < files.len() - 1 {
            assert(paths[i] != paths[files.len() - 1]);
            assert(state_at(u, rest[i], at_ms, context_id) == Ok::<Option<Seq<char>>, StoreError>(
                Some(files.drop_last()[i].text),
            ));
            law_text_keeps_other_states(
                u,
                last,
                files.last().text,
                recorded_at_ms,
                context_id,
                interval,
                paths[i],
                context_id,
                at_ms,
            );
        }
    }
    assert forall|path: Seq<char>, at_ms: i64| !paths.contains(path) implies #[trigger] state_at(
        v,
        path,
        at_ms,
        context_id,
    ) == state_at(t, path, at_ms, context_id) by {
        assert(paths[files.len() - 1] == last);
        if rest.contains(path) {
            let k = choose|k: int| 0 <= k < rest.len() && rest[k] == path;
            assert(paths[k] == path);
        }
        law_text_keeps_other_states(
            u,
            last,
            files.last().text,
            recorded_at_ms,
            context_id,
            interval,
            path,
            context_id,
            at_ms,
        );
        assert(state_at(u, path, at_ms, context_id) == state_at(t, path, at_ms, context_id));
    }
    assert forall|path: Seq<char>|
        !paths.contains(path) && newest_reads_back(t, path, context_id)
        implies #[trigger] newest_reads_back(v, path, context_id) by {
        assert(paths[files.len() - 1] == last);
        if rest.contains(path) {
            let k = choose|k: int| 0 <= k < rest.len() && rest[k] == path;
            assert(paths[k] == path);
        }
        assert(newest_reads_back(u, path, context_id));
        lemma_text_leaves_newest(
            u,
            last,
            files.last().text,
            recorded_at_ms,
            context_id,
            interval,
            path,
        );
        assert(newest_of(v, path, context_id) == newest_of(u, path, context_id));
    }
}

/// Records all tracked files that were found on disk, in the given order, and then those
/// that are gone. A failure ends it; what was recorded before stays.
pub fn capture_initial_state(
    root: &str,
    store: &mut TimelineStore,
    files: &Vec<ScannedFile>,
    recorded_at_ms: i64,
    context_id: i64,
) -> (res: Result<ScanSummary, SnapshotError>)
    requires
        old(store).wf(),
        old(store).settings().full_snapshot_interval != 0 || !scan_asks_interval(
            old(store).tables(),
            root@,
            scanned_views(files@),
            recorded_at_ms,
            context_id,
            old(store).settings().full_snapshot_interval,
        ),
    ensures
        final(store).wf(),
        old(store).tables().linked() ==> final(store).tables().linked(),
        final(store).same_project(old(store)),
        ({
            let expected = with_scan(
                old(store).tables(),
                root@,
                scanned_views(files@),
                recorded_at_ms,
                context_id,
                old(store).settings().full_snapshot_interval,
            );
            &&& final(store).tables() == expected.0
            &&& match res {
                Ok(summary) => expected.1 == Ok::<(nat, nat), SnapshotError>(
                    (summary.tracked_files as nat, summary.deleted_files as nat),
                ),
                Err(e) => expected.1 == Err::<(nat, nat), SnapshotError>(e),
            }
        }),
        old(store).tables().wf() && sound(old(store).tables()) ==> sound(final(store).tables()),
        // From then on exactly what was found is read back.
        res is Ok && old(store).tables().wf() && nothing_after(
            old(store).tables(),
            context_id,
            recorded_at_ms,
        ) && scan_is_clear(old(store).tables(), root@, scanned_views(files@), context_id) ==> {
            let found = scanned_views(files@);
            &&& forall|i: int, at_ms: i64|
                0 <= i < found.len() && at_ms >= recorded_at_ms ==> #[trigger] state_at(
                    final(store).tables(),
                    scanned_paths(root@, found)[i],
                    at_ms,
                    context_id,
                ) == Ok::<Option<Seq<char>>, StoreError>(Some(found[i].text))
            &&& forall|path: Seq<char>, at_ms: i64|
                !scanned_paths(root@, found).contains(path) && at_ms >= recorded_at_ms
                    ==> #[trigger] state_at(final(store).tables(), path, at_ms, context_id) == Ok::<
                    Option<Seq<char>>,
                    StoreError,
                >(None)
        },
{
    let ghost t = store.tables();
    let ghost all = scanned_views(files@);
    let ghost interval = store.settings().full_snapshot_interval;
    let ghost clear = t.wf() && nothing_after(t, context_id, recorded_at_ms) && scan_is_clear(
        t,
        root@,
        all,
        context_id,
    );
    let mut scan = ProjectScan::new();
    let mut i: usize = 0;
    assert(scan@.seen =~= scanned_paths(root@, all.take(0)));
    while i < files.len()
        invariant
            i <= files@.len(),
            all == scanned_views(files@),
            t == old(store).tables(),
            store.wf(),
            store.same_project(old(store)),
            interval == old(store).settings().full_snapshot_interval,
            interval != 0 || !scan_asks_interval(
                t,
                root@,
                all,
                recorded_at_ms,
                context_id,
                interval,
            ),
            scan.wf(),
            with_scanned_files(
                t,
                root@,
                all.take(i as int),
                recorded_at_ms,
                context_id,
                interval,
            ) == (store.tables(), Ok::<ScanView, SnapshotError>(scan@)),
            clear == (t.wf() && nothing_after(t, context_id, recorded_at_ms) && scan_is_clear(
                t,
                root@,
                all,
                context_id,
            )),
            scan@.seen == scanned_paths(root@, all.take(i as int)),
            t.linked() ==> store.tables().linked(),
            t.wf() && sound(t) ==> sound(store.tables()),
            t.wf() && nothing_after(t, context_id, recorded_at_ms) ==> nothing_after(
                store.tables(),
                context_id,
                recorded_at_ms,
            ),
            clear ==> reads_found(
                t,
                store.tables(),
                root@,
                all.take(i as int),
                recorded_at_ms,
                context_id,
            ),
        decreases files@.len() - i,
    {
        let file = &files[i];
        let ghost now = store.tables();
        let ghost done = all.take(i + 1);
        proof {
            assert(done.drop_last() =~= all.take(i as int));
            assert(done.last() == file@);
            assert(all[i as int] == file@);
            if clear {
                lemma_next_is_clear(t, now, root@, all, i as int, recorded_at_ms, context_id);
            }
        }
        match scan.record_file(
            root,
            store,
            file.path.as_str(),
            file.text.as_str(),
            recorded_at_ms,
            context_id,
        ) {
            Ok(_) => {
                proof {
                    assert(scan@.seen =~= scanned_paths(root@, done));
                    if clear {
                        assert(scanned_paths(root@, done).no_duplicates()) by {
                            assert(scanned_paths(root@, done) =~= scanned_paths(root@, all).take(
                                i + 1,
                            ));
                        }
                        lemma_one_more_found(
                            t,
                            now,
                            store.tables(),
                            root@,
                            done,
                            recorded_at_ms,
                            context_id,
                            interval,
                        );
                    }
                }
            },
            Err(e) => {
                proof {
                    lemma_scan_stops(
                        t,
                        root@,
                        all,
                        recorded_at_ms,
                        context_id,
                        interval,
                        i + 1,
                    );
                }
                return Err(e);
            },
        }
        i += 1;
    }
    assert(all.take(i as int) =~= all);
    let ghost now = store.tables();
    let res = scan.finish(store, recorded_at_ms, context_id);
    proof {
        if clear && res is Ok {
            let paths = scanned_paths(root@, all);
            assert forall|k: int, at_ms: i64|
                0 <= k < all.len() && at_ms >= recorded_at_ms implies #[trigger] state_at(
                store.tables(),
                paths[k],
                at_ms,
                context_id,
            ) == Ok::<Option<Seq<char>>, StoreError>(Some(all[k].text)) by {
                assert(paths.contains(paths[k]));
                assert(state_at(now, paths[k], at_ms, context_id) == Ok::<
                    Option<Seq<char>>,
                    StoreError,
                >(Some(all[k].text)));
            }
        }
    }
    res
}

// ---------------------------------------------------------------------------
// One path
// ---------------------------------------------------------------------------

/// What is found on disk under a path.
#[derive(Debug, Clone)]
pub enum Observed {
    Directory,
    /// A file, with its text where it is one to keep.
    File(Option<String>),
    Missing,
}

/// The view of an [`Observed`].
pub enum ObservedView {
    Directory,
    File(Option<Seq<char>>),
    Missing,
}

impl View for Observed {
    type V = ObservedView;

    open spec fn view(&self) -> ObservedView {
        match *self {
            Observed::Directory => ObservedView::Directory,
            Observed::File(text) => ObservedView::File(opt_text(text)),
            Observed::Missing => ObservedView::Missing,
        }
    }
}

/// The whole path that changed, where the project tracks it: it lies in the project
/// directory and is not ignored.
pub open spec fn tracked_path(
    root: Seq<char>,
    path: Seq<char>,
    filter: &ProjectFilter,
    is_dir: bool,
) -> Option<Seq<char>> {
    let whole = joined_path(root, path);
    if !parts_begin_with(parts(whole), parts(root)) {
        None
    } else if path_ignored(filter.root(), filter.lines(), whole, is_dir) {
        None
    } else {
        Some(whole)
    }
}

/// The tables after what was found under a whole path was recorded: a text, the end of a
/// file, or the end of all files below it.
pub open spec fn with_observed(
    t: Tables,
    root: Seq<char>,
    whole: Seq<char>,
    observed: ObservedView,
    recorded_at_ms: i64,
    context_id: i64,
    interval: i64,
) -> (Tables, Result<(), SnapshotError>) {
    match observed {
        ObservedView::Directory => (t, Ok(())),
        ObservedView::File(None) => (t, Ok(())),
        ObservedView::File(Some(text)) => match normalized(root, whole) {
            Err(e) => (t, Err(SnapshotError::Path(e))),
            Ok(path) => match with_text(t, path, text, recorded_at_ms, context_id, interval) {
                Err(e) => (t, Err(SnapshotError::Store(e))),
                Ok((u, _)) => (u, Ok(())),
            },
        },
        ObservedView::Missing => match normalized(root, whole) {
            Err(e) => (t, Err(SnapshotError::Path(e))),
            Ok(path) => match with_delete(t, path, recorded_at_ms, context_id) {
                Err(e) => (t, Err(SnapshotError::Store(e))),
                Ok((u, true)) => (u, Ok(())),
                Ok((u, false)) => {
                    match with_deletes_under(u, path + seq!['/'], recorded_at_ms, context_id) {
                        (v, Ok(_)) => (v, Ok(())),
                        (v, Err(e)) => (v, Err(SnapshotError::Store(e))),
                    }
                },
            },
        },
    }
}

/// The whole path that changed, where the project tracks it.
pub fn changed_path(root: &str, path: &str, filter: &ProjectFilter, is_dir: bool) -> (res: Option<
    String,
>)
    requires
        filter.wf(),
        parts_begin_with(parts(joined_path(root@, path@)), parts(root@)) ==> filter.can_tell(
            joined_path(root@, path@),
            is_dir,
        ),
    ensures
        opt_text(res) == tracked_path(root@, path@, filter, is_dir),
{
    let whole = join_path(root, path);
    let all = parts_of(whole.as_str());
    let base = parts_of(root);
    if !starts_under(&all, &base) {
        return None;
    }
    if filter.is_path_ignored(whole.as_str(), is_dir) {
        return None;
    }
    Some(whole)
}

/// Records what was found under a whole path.
pub fn record_observed(
    root: &str,
    whole: &str,
    observed: &Observed,
    store: &mut TimelineStore,
    recorded_at_ms: i64,
    context_id: i64,
) -> (res: Result<(), SnapshotError>)
    requires
        old(store).wf(),
        old(store).settings().full_snapshot_interval != 0 || !observed_asks_interval(
            old(store).tables(),
            root@,
            whole@,
            observed@,
            context_id,
        ),
    ensures
        final(store).wf(),
        old(store).tables().linked() ==> final(store).tables().linked(),
        final(store).same_project(old(store)),
        (final(store).tables(), res) == with_observed(
            old(store).tables(),
            root@,
            whole@,
            observed@,
            recorded_at_ms,
            context_id,
            old(store).settings().full_snapshot_interval,
        ),
        // What is read afterwards follows what was found.
        res is Ok && old(store).tables().wf() && normalized(root@, whole@) is Ok
            ==> follows_observed(
            old(store).tables(),
            final(store).tables(),
            normalized(root@, whole@)->Ok_0,
            observed@,
            recorded_at_ms,
            context_id,
        ),
{
    let ghost t = store.tables();
    match observed {
        Observed::Directory => Ok(()),
        Observed::File(None) => Ok(()),
        Observed::File(Some(text)) => {
            let relative = match normalize_relative_path(root, whole) {
                Ok(relative) => relative,
                Err(e) => {
                    return Err(SnapshotError::Path(e));
                },
            };
            let ghost interval = store.settings().full_snapshot_interval;
            match store.record_text(relative.as_str(), text.as_str(), recorded_at_ms, context_id) {
                Ok(_) => {
                    proof {
                        if t.wf() {
                            lemma_found_changes_one_file(
                                t,
                                relative@,
                                text@,
                                recorded_at_ms,
                                context_id,
                                interval,
                            );
                        }
                    }
                    Ok(())
                },
                Err(e) => Err(SnapshotError::Store(e)),
            }
        },
        Observed::Missing => {
            let relative = match normalize_relative_path(root, whole) {
                Ok(relative) => relative,
                Err(e) => {
                    return Err(SnapshotError::Path(e));
                },
            };
            match store.record_delete(relative.as_str(), recorded_at_ms, context_id) {
                Ok(true) => {
                    proof {
                        if t.wf() {
                            lemma_missing_is_absent(t, relative@, recorded_at_ms, context_id);
                        }
                    }
                    Ok(())
                },
                Ok(false) => {
                    let mut prefix = relative.clone();
                    prefix.push('/');
                    assert(prefix@ =~= relative@ + seq!['/']);
                    match store.record_delete_prefix(prefix.as_str(), recorded_at_ms, context_id) {
                        Ok(_) => {
                            proof {
                                if t.wf() {
                                    lemma_missing_is_absent(
                                        t,
                                        relative@,
                                        recorded_at_ms,
                                        context_id,
                                    );
                                }
                            }
                            Ok(())
                        },
                        Err(e) => Err(SnapshotError::Store(e)),
                    }
                },
                Err(e) => Err(SnapshotError::Store(e)),
            }
        },
    }
}

/// Records what was found under a path that changed. A path that the project does not
/// track is passed over.
pub fn process_path_change(
    root: &str,
    path: &str,
    filter: &ProjectFilter,
    is_dir: bool,
    observed: &Observed,
    store: &mut TimelineStore,
    recorded_at_ms: i64,
    context_id: i64,
) -> (res: Result<(), SnapshotError>)
    requires
        filter.wf(),
        parts_begin_with(parts(joined_path(root@, path@)), parts(root@)) ==> filter.can_tell(
            joined_path(root@, path@),
            is_dir,
        ),
        old(store).wf(),
        old(store).settings().full_snapshot_interval != 0 || !(tracked_path(
            root@,
            path@,
            filter,
            is_dir,
        ) matches Some(whole) && observed_asks_interval(
            old(store).tables(),
            root@,
            whole,
            observed@,
            context_id,
        )),
    ensures
        final(store).wf(),
        old(store).tables().linked() ==> final(store).tables().linked(),
        final(store).same_project(old(store)),
        match tracked_path(root@, path@, filter, is_dir) {
            None => *final(store) == *old(store) && res is Ok,
            Some(whole) => (final(store).tables(), res) == with_observed(
                old(store).tables(),
                root@,
                whole,
                observed@,
                recorded_at_ms,
                context_id,
                old(store).settings().full_snapshot_interval,
            ),
        },
        // What is read afterwards follows what was found.
        res is Ok && old(store).tables().wf() && normalized(
            root@,
            joined_path(root@, path@),
        ) is Ok && !path_ignored(
            filter.root(),
            filter.lines(),
            joined_path(root@, path@),
            is_dir,
        ) && parts_begin_with(parts(joined_path(root@, path@)), parts(root@)) ==> follows_observed(
            old(store).tables(),
            final(store).tables(),
            normalized(root@, joined_path(root@, path@))->Ok_0,
            observed@,
            recorded_at_ms,
            context_id,
        ),
        // What lies outside the project or is ignored is not recorded.
        !parts_begin_with(parts(joined_path(root@, path@)), parts(root@)) || path_ignored(
            filter.root(),
            filter.lines(),
            joined_path(root@, path@),
            is_dir,
        ) ==> res is Ok && *final(store) == *old(store),
{
    match changed_path(root, path, filter, is_dir) {
        None => Ok(()),
        Some(whole) => record_observed(
            root,
            whole.as_str(),
            observed,
            store,
            recorded_at_ms,
            context_id,
        ),
    }
}

} // verus!
