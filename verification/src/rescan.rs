//! What the counts of a scan stand for, and what a second scan of the same files finds.
use vstd::prelude::*;

use crate::path::normalized;
use crate::snapshot::{
    lemma_unseen_contains,
    no_scan,
    scan_is_clear,
    scanned_paths,
    unseen,
    with_scan,
    with_scanned_files,
    with_unseen_gone,
    ScanView,
    Scanned,
    SnapshotError,
};
use crate::store::laws::newest_of;
use crate::store::listing::live_paths;
use crate::store::lookup::{content_of, file_id_of, state_at};
use crate::store::newest::{
    law_live_paths_are_those_that_are_there,
    law_text_keeps_agreement,
    lemma_ends_are_counted,
    lemma_text_is_newest,
    lemma_text_leaves_newest,
    lemma_text_stays_recorded,
};
use crate::store::record::{
    lemma_seen_keeps_numbers,
    unchanged,
    was_there,
    with_context_seen,
    with_text,
};
use crate::store::sound::{
    digest_tells,
    lemma_no_revision_of_new_file,
    lemma_with_file_finds,
    newest_reads_back,
    nothing_after,
    recorded_by,
};
use crate::store::tables::{StoreError, Tables};

verus! {

/// Whether a file holds another text now than the one that was found, or none.
pub open spec fn differs_now(t: Tables, path: Seq<char>, text: Seq<char>, context_id: i64) -> bool {
    state_at(t, path, i64::MAX, context_id) != Ok::<Option<Seq<char>>, StoreError>(Some(text))
}

/// How many of the files that were found hold another text by what was recorded, or none.
pub open spec fn count_differing(
    t: Tables,
    root: Seq<char>,
    files: Seq<Scanned>,
    context_id: i64,
) -> nat
    decreases files.len(),
{
    if files.len() == 0 {
        0
    } else {
        let before = count_differing(t, root, files.drop_last(), context_id);
        if differs_now(t, scanned_paths(root, files).last(), files.last().text, context_id) {
            before + 1
        } else {
            before
        }
    }
}

/// What is taken to be unchanged is what is held, where the newest revision gives back what
/// it stands for and the digest tells.
proof fn lemma_unchanged_is_held(
    t: Tables,
    root: Seq<char>,
    files: Seq<Scanned>,
    context_id: i64,
    at: int,
)
    requires
        0 <= at < files.len(),
        scan_is_clear(t, root, files, context_id),
    ensures
        unchanged(newest_of(t, scanned_paths(root, files)[at], context_id), files[at].text)
            == !differs_now(t, scanned_paths(root, files)[at], files[at].text, context_id),
{
    let path = scanned_paths(root, files)[at];
    if newest_of(t, path, context_id) is Some {
        let r = newest_of(t, path, context_id)->Some_0;
        assert(was_there(newest_of(t, path, context_id)) ==> content_of(t.revisions, r) is Ok);
    }
}

/// What recording the files that were found makes of the newest revisions.
proof fn lemma_found_files(
    t: Tables,
    root: Seq<char>,
    files: Seq<Scanned>,
    recorded_at_ms: i64,
    context_id: i64,
    interval: i64,
)
    requires
        t.wf(),
        scanned_paths(root, files).no_duplicates(),
        with_scanned_files(t, root, files, recorded_at_ms, context_id, interval).1 is Ok,
    ensures
        ({
            let (u, res) = with_scanned_files(
                t,
                root,
                files,
                recorded_at_ms,
                context_id,
                interval,
            );
            let paths = scanned_paths(root, files);
            &&& u.wf()
            &&& res->Ok_0.seen == paths
            &&& scan_is_clear(t, root, files, context_id) ==> res->Ok_0.changed
                == count_differing(t, root, files, context_id)
            &&& forall|other: Seq<char>|
                !paths.contains(other) ==> #[trigger] newest_of(u, other, context_id)
                    == newest_of(t, other, context_id)
            &&& forall|i: int|
                0 <= i < files.len() ==> normalized(root, (#[trigger] files[i]).path) is Ok
            &&& nothing_after(t, context_id, recorded_at_ms) ==> {
                &&& nothing_after(u, context_id, recorded_at_ms)
                &&& forall|i: int|
                    0 <= i < files.len() ==> unchanged(
                        newest_of(u, paths[i], context_id),
                        (#[trigger] files[i]).text,
                    )
            }
        }),
    decreases files.len(),
{
    let paths = scanned_paths(root, files);
    if files.len() == 0 {
        assert(no_scan().seen =~= paths);
    } else {
        let front = files.drop_last();
        let rest = scanned_paths(root, front);
        assert(rest =~= paths.drop_last());
        lemma_found_files(t, root, front, recorded_at_ms, context_id, interval);
        let (u, res) = with_scanned_files(
            t,
            root,
            front,
            recorded_at_ms,
            context_id,
            interval,
        );
        let path = paths.last();
        let text = files.last().text;
        assert(paths[files.len() - 1] == path);
        assert(!rest.contains(path));
        assert(with_text(u, path, text, recorded_at_ms, context_id, interval) is Ok);
        let (v, added) = with_text(u, path, text, recorded_at_ms, context_id, interval)->Ok_0;
        law_text_keeps_agreement(u, path, text, recorded_at_ms, context_id, interval);
        assert(newest_of(u, path, context_id) == newest_of(t, path, context_id));
        assert(added == !unchanged(newest_of(u, path, context_id), text)) by {
            lemma_added_unless_unchanged(
                u,
                path,
                text,
                recorded_at_ms,
                context_id,
                interval,
            );
        }
        assert forall|other: Seq<char>| !paths.contains(other) implies #[trigger] newest_of(
            v,
            other,
            context_id,
        ) == newest_of(t, other, context_id) by {
            if rest.contains(other) {
                let k = choose|k: int| 0 <= k < rest.len() && rest[k] == other;
                assert(paths[k] == other);
            }
            lemma_text_leaves_newest(
                u,
                path,
                text,
                recorded_at_ms,
                context_id,
                interval,
                other,
            );
            assert(newest_of(u, other, context_id) == newest_of(t, other, context_id));
        }
        if scan_is_clear(t, root, files, context_id) {
            assert(scan_is_clear(t, root, front, context_id)) by {
                assert forall|i: int| 0 <= i < front.len() implies {
                    let p = #[trigger] scanned_paths(root, front)[i];
                    &&& newest_reads_back(t, p, context_id)
                    &&& digest_tells(t, p, context_id, front[i].text)
                } by {
                    assert(paths[i] == rest[i]);
                }
            }
            lemma_unchanged_is_held(t, root, files, context_id, files.len() - 1);
        }
        assert(res->Ok_0.seen.push(path) =~= paths);
        assert forall|i: int| 0 <= i < files.len() implies normalized(
            root,
            (#[trigger] files[i]).path,
        ) is Ok by {
            if i < front.len() {
                assert(front[i] == files[i]);
            }
        }
        if nothing_after(t, context_id, recorded_at_ms) {
            assert forall|p: Seq<char>| #[trigger] recorded_by(
                v,
                p,
                context_id,
                recorded_at_ms,
            ) by {
                assert(recorded_by(u, p, context_id, recorded_at_ms));
                lemma_text_stays_recorded(
                    u,
                    path,
                    text,
                    recorded_at_ms,
                    context_id,
                    interval,
                    p,
                );
            }
            assert(recorded_by(u, path, context_id, recorded_at_ms));
            lemma_text_is_newest(u, path, text, recorded_at_ms, context_id, interval);
            assert forall|i: int| 0 <= i < files.len() implies unchanged(
                newest_of(v, paths[i], context_id),
                (#[trigger] files[i]).text,
            ) by {
                if i < front.len() {
                    assert(front[i] == files[i]);
                    assert(rest[i] == paths[i]);
                    assert(paths[i] != paths[files.len() - 1]);
                    lemma_text_leaves_newest(
                        u,
                        path,
                        text,
                        recorded_at_ms,
                        context_id,
                        interval,
                        paths[i],
                    );
                }
            }
        }
    }
}

proof fn lemma_added_unless_unchanged(
    t: Tables,
    path: Seq<char>,
    content: Seq<char>,
    recorded_at_ms: i64,
    context_id: i64,
    interval: i64,
)
    requires
        t.wf(),
        with_text(t, path, content, recorded_at_ms, context_id, interval) is Ok,
    ensures
        with_text(t, path, content, recorded_at_ms, context_id, interval)->Ok_0.1 == !unchanged(
            newest_of(t, path, context_id),
            content,
        ),
{
    let seen = with_context_seen(t, context_id, recorded_at_ms);
    lemma_seen_keeps_numbers(t, context_id, recorded_at_ms);
    lemma_with_file_finds(seen, context_id, path, recorded_at_ms);
    if file_id_of(t.files, context_id, path) is None {
        lemma_no_revision_of_new_file(
            t,
            (t.last_file_id + 1) as i64,
            i64::MAX,
        );
    }
}

/// The files that are there but were not found, after those that were found were recorded,
/// are those that were there before and were not found.
proof fn lemma_unseen_stay(t: Tables, u: Tables, seen: Seq<Seq<char>>, context_id: i64)
    requires
        t.wf(),
        u.wf(),
        forall|other: Seq<char>|
            !seen.contains(other) ==> #[trigger] newest_of(u, other, context_id) == newest_of(
                t,
                other,
                context_id,
            ),
    ensures
        unseen(live_paths(u, context_id, Seq::empty()), seen).no_duplicates(),
        unseen(live_paths(u, context_id, Seq::empty()), seen).len() == unseen(
            live_paths(t, context_id, Seq::empty()),
            seen,
        ).len(),
{
    let before = live_paths(t, context_id, Seq::empty());
    let after = live_paths(u, context_id, Seq::empty());
    law_live_paths_are_those_that_are_there(t, context_id);
    law_live_paths_are_those_that_are_there(u, context_id);
    lemma_unseen_once(before, seen);
    lemma_unseen_once(after, seen);
    unseen(before, seen).unique_seq_to_set();
    unseen(after, seen).unique_seq_to_set();
    assert(unseen(before, seen).to_set() =~= unseen(after, seen).to_set()) by {
        assert forall|p: Seq<char>|
            unseen(before, seen).to_set().contains(p) == unseen(after, seen).to_set().contains(
                p,
            ) by {
            lemma_unseen_contains(before, seen, p);
            lemma_unseen_contains(after, seen, p);
            assert(unseen(before, seen).contains(p) == unseen(after, seen).contains(p)) by {
                if !seen.contains(p) {
                    assert(newest_of(u, p, context_id) == newest_of(t, p, context_id));
                }
                assert(before.contains(p) <==> was_there(newest_of(t, p, context_id)));
                assert(after.contains(p) <==> was_there(newest_of(u, p, context_id)));
            }
        }
    }
}

proof fn lemma_unseen_once(paths: Seq<Seq<char>>, seen: Seq<Seq<char>>)
    requires
        paths.no_duplicates(),
    ensures
        unseen(paths, seen).no_duplicates(),
    decreases paths.len(),
{
    if paths.len() > 0 {
        let rest = paths.drop_last();
        lemma_unseen_once(rest, seen);
        lemma_unseen_contains(rest, seen, paths.last());
        assert(paths[paths.len() - 1] == paths.last());
        assert(!rest.contains(paths.last()));
        let before = unseen(rest, seen);
        let all = unseen(paths, seen);
        if !seen.contains(paths.last()) {
            assert(all == before.push(paths.last()));
            assert forall|i: int, j: int| 0 <= i < j < all.len() implies all[i] != all[j] by {
                assert(all[i] == before[i]);
                if j < before.len() {
                    assert(all[j] == before[j]);
                } else {
                    assert(before.contains(before[i]));
                }
            }
        }
    }
}

/// The counts of a scan: as many files changed as were found with another text than the
/// timeline held, or were not there by it; and as many are gone as were there by it and were
/// not found.
pub proof fn law_scan_counts_differences(
    t: Tables,
    root: Seq<char>,
    files: Seq<Scanned>,
    recorded_at_ms: i64,
    context_id: i64,
    interval: i64,
)
    requires
        t.wf(),
        scan_is_clear(t, root, files, context_id),
        with_scan(t, root, files, recorded_at_ms, context_id, interval).1 is Ok,
    ensures
        with_scan(t, root, files, recorded_at_ms, context_id, interval).1 == Ok::<
            (nat, nat),
            SnapshotError,
        >(
            (
                count_differing(t, root, files, context_id),
                unseen(
                    live_paths(t, context_id, Seq::empty()),
                    scanned_paths(root, files),
                ).len(),
            ),
        ),
{
    let paths = scanned_paths(root, files);
    lemma_found_files(t, root, files, recorded_at_ms, context_id, interval);
    let (u, res) = with_scanned_files(t, root, files, recorded_at_ms, context_id, interval);
    lemma_unseen_stay(t, u, paths, context_id);
    lemma_gone_are_there(u, paths, context_id);
    lemma_ends_are_counted(
        u,
        unseen(live_paths(u, context_id, Seq::empty()), paths),
        recorded_at_ms,
        context_id,
    );
}

proof fn lemma_gone_are_there(t: Tables, seen: Seq<Seq<char>>, context_id: i64)
    requires
        t.wf(),
    ensures
        forall|i: int|
            0 <= i < unseen(live_paths(t, context_id, Seq::empty()), seen).len() ==> was_there(
                newest_of(
                    t,
                    #[trigger] unseen(live_paths(t, context_id, Seq::empty()), seen)[i],
                    context_id,
                ),
            ),
{
    let live = live_paths(t, context_id, Seq::empty());
    let gone = unseen(live, seen);
    law_live_paths_are_those_that_are_there(t, context_id);
    assert forall|i: int| 0 <= i < gone.len() implies was_there(
        newest_of(t, #[trigger] gone[i], context_id),
    ) by {
        lemma_unseen_contains(live, seen, gone[i]);
        assert(gone.contains(gone[i]));
        assert(live.contains(gone[i]));
    }
}

/// Recording files that are taken to be unchanged changes nothing that is newest.
proof fn lemma_unchanged_files(
    t: Tables,
    root: Seq<char>,
    files: Seq<Scanned>,
    recorded_at_ms: i64,
    context_id: i64,
    interval: i64,
)
    requires
        t.wf(),
        t.last_file_id + files.len() <= i64::MAX,
        forall|i: int|
            0 <= i < files.len() ==> {
                &&& normalized(root, (#[trigger] files[i]).path) is Ok
                &&& unchanged(
                    newest_of(t, scanned_paths(root, files)[i], context_id),
                    files[i].text,
                )
            },
    ensures
        ({
            let (u, res) = with_scanned_files(
                t,
                root,
                files,
                recorded_at_ms,
                context_id,
                interval,
            );
            &&& u.wf()
            &&& u.last_file_id == t.last_file_id + files.len()
            &&& res == Ok::<ScanView, SnapshotError>(
                ScanView { changed: 0, seen: scanned_paths(root, files) },
            )
            &&& forall|path: Seq<char>| #[trigger]
                newest_of(u, path, context_id) == newest_of(t, path, context_id)
        }),
    decreases files.len(),
{
    let paths = scanned_paths(root, files);
    if files.len() == 0 {
        assert(no_scan().seen =~= paths);
    } else {
        let front = files.drop_last();
        let rest = scanned_paths(root, front);
        assert(rest =~= paths.drop_last());
        assert forall|i: int| 0 <= i < front.len() implies {
            &&& normalized(root, (#[trigger] front[i]).path) is Ok
            &&& unchanged(newest_of(t, rest[i], context_id), front[i].text)
        } by {
            assert(front[i] == files[i]);
            assert(rest[i] == paths[i]);
        }
        lemma_unchanged_files(t, root, front, recorded_at_ms, context_id, interval);
        let (u, res) = with_scanned_files(
            t,
            root,
            front,
            recorded_at_ms,
            context_id,
            interval,
        );
        let path = paths.last();
        let text = files.last().text;
        assert(files[files.len() - 1] == files.last());
        assert(paths[files.len() - 1] == path);
        assert(newest_of(u, path, context_id) == newest_of(t, path, context_id));
        assert(unchanged(newest_of(u, path, context_id), text));
        let seen = with_context_seen(u, context_id, recorded_at_ms);
        lemma_seen_keeps_numbers(u, context_id, recorded_at_ms);
        lemma_with_file_finds(seen, context_id, path, recorded_at_ms);
        assert(with_text(u, path, text, recorded_at_ms, context_id, interval) is Ok);
        let (v, added) = with_text(u, path, text, recorded_at_ms, context_id, interval)->Ok_0;
        assert(!added);
        law_text_keeps_agreement(u, path, text, recorded_at_ms, context_id, interval);
        assert forall|p: Seq<char>| #[trigger] newest_of(v, p, context_id) == newest_of(
            t,
            p,
            context_id,
        ) by {
            assert(newest_of(u, p, context_id) == newest_of(t, p, context_id));
            if p != path {
                assert(file_id_of(v.files, context_id, p) == file_id_of(u.files, context_id, p));
            }
        }
        assert(rest.push(path) =~= paths);
    }
}

/// After a scan exactly the files that were found are there, and a second scan that finds
/// the same files, at any time, finds nothing changed and nothing gone, while a row number
/// is left for each. Nothing was recorded in the context after the time of the first scan.
pub proof fn law_second_scan_finds_nothing(
    t: Tables,
    root: Seq<char>,
    files: Seq<Scanned>,
    recorded_at_ms: i64,
    later_ms: i64,
    context_id: i64,
    interval: i64,
)
    requires
        t.wf(),
        scanned_paths(root, files).no_duplicates(),
        nothing_after(t, context_id, recorded_at_ms),
        with_scan(t, root, files, recorded_at_ms, context_id, interval).1 is Ok,
        with_scan(t, root, files, recorded_at_ms, context_id, interval).0.last_file_id
            + files.len() <= i64::MAX,
    ensures
        with_scan(
            with_scan(t, root, files, recorded_at_ms, context_id, interval).0,
            root,
            files,
            later_ms,
            context_id,
            interval,
        ).1 == Ok::<(nat, nat), SnapshotError>((0, 0)),
        forall|path: Seq<char>| #[trigger]
            live_paths(
                with_scan(t, root, files, recorded_at_ms, context_id, interval).0,
                context_id,
                Seq::empty(),
            ).contains(path) <==> scanned_paths(root, files).contains(path),
{
    let paths = scanned_paths(root, files);
    lemma_found_files(t, root, files, recorded_at_ms, context_id, interval);
    let (u, res) = with_scanned_files(t, root, files, recorded_at_ms, context_id, interval);
    let gone = unseen(live_paths(u, context_id, Seq::empty()), paths);
    lemma_unseen_stay(t, u, paths, context_id);
    lemma_gone_are_there(u, paths, context_id);
    lemma_ends_are_counted(u, gone, recorded_at_ms, context_id);
    let (v, ended) = with_unseen_gone(u, paths, recorded_at_ms, context_id);
    assert(v == with_scan(t, root, files, recorded_at_ms, context_id, interval).0);
    assert forall|i: int| 0 <= i < files.len() implies {
        &&& normalized(root, (#[trigger] files[i]).path) is Ok
        &&& unchanged(newest_of(v, paths[i], context_id), files[i].text)
    } by {
        lemma_unseen_contains(live_paths(u, context_id, Seq::empty()), paths, paths[i]);
        assert(paths.contains(paths[i]));
        assert(newest_of(v, paths[i], context_id) == newest_of(u, paths[i], context_id));
    }
    lemma_unchanged_files(v, root, files, later_ms, context_id, interval);
    let (w, again) = with_scanned_files(v, root, files, later_ms, context_id, interval);
    law_live_paths_are_those_that_are_there(w, context_id);
    law_live_paths_are_those_that_are_there(v, context_id);
    law_live_paths_are_those_that_are_there(u, context_id);
    assert forall|p: Seq<char>| #[trigger] live_paths(v, context_id, Seq::empty()).contains(
        p,
    ) <==> paths.contains(p) by {
        assert(live_paths(v, context_id, Seq::empty()).contains(p) <==> was_there(
            newest_of(v, p, context_id),
        ));
        if paths.contains(p) {
            let i = choose|i: int| 0 <= i < paths.len() && paths[i] == p;
            assert(unchanged(newest_of(v, paths[i], context_id), files[i].text));
        } else {
            lemma_unseen_contains(live_paths(u, context_id, Seq::empty()), paths, p);
            if gone.contains(p) {
                let k = choose|k: int| 0 <= k < gone.len() && gone[k] == p;
                assert(!was_there(newest_of(v, gone[k], context_id)));
            } else {
                assert(newest_of(v, p, context_id) == newest_of(u, p, context_id));
                assert(live_paths(u, context_id, Seq::empty()).contains(p) <==> was_there(
                    newest_of(u, p, context_id),
                ));
            }
        }
    }
    let left = unseen(live_paths(w, context_id, Seq::empty()), paths);
    assert(left.len() == 0) by {
        if left.len() > 0 {
            let p = left[0];
            lemma_unseen_contains(live_paths(w, context_id, Seq::empty()), paths, p);
            assert(left.contains(p));
            assert(newest_of(w, p, context_id) == newest_of(v, p, context_id));
            assert(live_paths(v, context_id, Seq::empty()).contains(p));
        }
    }
    assert(left =~= Seq::<Seq<char>>::empty());
}

} // verus!
