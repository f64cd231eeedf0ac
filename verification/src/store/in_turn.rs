//! Pruning all files at once, and one file after the other.
use vstd::prelude::*;

use crate::store::lookup::{
    content_of,
    latest_at,
    lemma_latest_at,
    lemma_latest_is,
    lemma_revision_at,
    lemma_unpassed,
    newer,
    numbers_of,
};
use crate::store::prune::{
    all_settled,
    anchor_count,
    anchor_failure,
    base_stays_in_file,
    bases_stay_in_files,
    file_gone,
    file_pruned,
    file_settled,
    gone_until,
    is_anchor,
    lemma_survivor_origin,
    lemma_survivor_present,
    lemma_survivors_of_none,
    needs_full_copy,
    one_by_one,
    prune_failure,
    prune_outcome,
    pruned,
    settled,
    stays,
    survivors,
    unlinked_from,
};
use crate::store::retention::{
    lemma_one_full,
    lemma_outcome_step,
    lemma_survivors_ascend,
    outcome,
};
use crate::store::rows::{FileView, RevisionView, StorageKind};
use crate::store::tables::{base_holds, has_file, revision_ids_ascend, StoreError, Tables};

verus! {

// ---------------------------------------------------------------------------
// Files that were not pruned yet
// ---------------------------------------------------------------------------

/// A revision after the anchors of some files were turned into full copies.
spec fn part_row(
    rs: Seq<RevisionView>,
    done: Seq<FileView>,
    r: RevisionView,
    cutoff_ms: i64,
) -> RevisionView {
    if has_file(done, r.file_id) {
        settled(rs, r, cutoff_ms)
    } else {
        r
    }
}

/// All revisions after the anchors of some files were turned into full copies.
spec fn part_settled(rs: Seq<RevisionView>, done: Seq<FileView>, cutoff_ms: i64) -> Seq<
    RevisionView,
> {
    rs.map_values(|r: RevisionView| part_row(rs, done, r, cutoff_ms))
}

/// The numbers of the revisions of some files that do not stay.
spec fn part_gone(rs: Seq<RevisionView>, done: Seq<FileView>, cutoff_ms: i64) -> Set<i64> {
    Set::new(
        |id: i64|
            exists|i: int|
                0 <= i < rs.len() && (#[trigger] rs[i]).id == id && has_file(done, rs[i].file_id)
                    && !stays(rs, rs[i], cutoff_ms),
    )
}

/// All revisions after some files were pruned.
spec fn part_pruned(rs: Seq<RevisionView>, done: Seq<FileView>, cutoff_ms: i64) -> Seq<
    RevisionView,
> {
    survivors(part_settled(rs, done, cutoff_ms), part_gone(rs, done, cutoff_ms))
}

/// Whether every revision of a file is still there, but for links to what is gone, which
/// holds nothing of the file.
#[verifier::opaque]
spec fn found_now(
    rs: Seq<RevisionView>,
    now: Seq<RevisionView>,
    gone: Set<i64>,
    file_id: i64,
) -> bool {
    forall|i: int|
        0 <= i < rs.len() && (#[trigger] rs[i]).file_id == file_id ==> {
            &&& !gone.contains(rs[i].id)
            &&& exists|p: int|
                0 <= p < now.len() && #[trigger] now[p] == unlinked_from(rs[i], gone)
        }
}

/// Whether every revision of a file that is there now was there before.
#[verifier::opaque]
spec fn found_before(
    rs: Seq<RevisionView>,
    now: Seq<RevisionView>,
    gone: Set<i64>,
    file_id: i64,
) -> bool {
    forall|p: int|
        0 <= p < now.len() && (#[trigger] now[p]).file_id == file_id ==> exists|i: int|
            0 <= i < rs.len() && now[p] == unlinked_from(#[trigger] rs[i], gone)
}

/// Whether the revisions of a file are as they were, but for links to what is gone.
spec fn keeps_file(
    rs: Seq<RevisionView>,
    now: Seq<RevisionView>,
    gone: Set<i64>,
    file_id: i64,
) -> bool {
    &&& forall|i: int, j: int|
        0 <= i < j < now.len() ==> (#[trigger] now[i]).id < (#[trigger] now[j]).id
    &&& found_now(rs, now, gone, file_id)
    &&& found_before(rs, now, gone, file_id)
}

/// Where a revision of the file stands now.
proof fn position_now(
    rs: Seq<RevisionView>,
    now: Seq<RevisionView>,
    gone: Set<i64>,
    file_id: i64,
    i: int,
) -> (p: int)
    requires
        keeps_file(rs, now, gone, file_id),
        0 <= i < rs.len(),
        rs[i].file_id == file_id,
    ensures
        0 <= p < now.len(),
        now[p] == unlinked_from(rs[i], gone),
        !gone.contains(rs[i].id),
{
    reveal(found_now);
    choose|p: int| 0 <= p < now.len() && #[trigger] now[p] == unlinked_from(rs[i], gone)
}

/// Where a revision of the file stood before.
proof fn position_before(
    rs: Seq<RevisionView>,
    now: Seq<RevisionView>,
    gone: Set<i64>,
    file_id: i64,
    p: int,
) -> (i: int)
    requires
        keeps_file(rs, now, gone, file_id),
        0 <= p < now.len(),
        now[p].file_id == file_id,
    ensures
        0 <= i < rs.len(),
        now[p] == unlinked_from(rs[i], gone),
        rs[i].file_id == file_id,
{
    reveal(found_before);
    choose|i: int| 0 <= i < rs.len() && now[p] == unlinked_from(#[trigger] rs[i], gone)
}

proof fn lemma_part_keeps_file(t: Tables, done: Seq<FileView>, cutoff_ms: i64, file_id: i64)
    requires
        t.wf(),
        !has_file(done, file_id),
    ensures
        keeps_file(
            t.revisions,
            part_pruned(t.revisions, done, cutoff_ms),
            part_gone(t.revisions, done, cutoff_ms),
            file_id,
        ),
{
    let rs = t.revisions;
    let all = part_settled(rs, done, cutoff_ms);
    let gone = part_gone(rs, done, cutoff_ms);
    let now = part_pruned(rs, done, cutoff_ms);
    assert(revision_ids_ascend(all, t.last_revision_id)) by {
        assert forall|i: int| 0 <= i < all.len() implies (#[trigger] all[i]).id
            <= t.last_revision_id by {
            assert(rs[i].id <= t.last_revision_id);
        }
        assert forall|i: int, j: int| 0 <= i < j < all.len() implies (#[trigger] all[i]).id < (
        #[trigger] all[j]).id by {
            assert(rs[i].id < rs[j].id);
        }
    }
    lemma_survivors_ascend(all, gone, t.last_revision_id);
    assert(found_now(rs, now, gone, file_id)) by {
        reveal(found_now);
        assert forall|i: int| 0 <= i < rs.len() && (#[trigger] rs[i]).file_id == file_id implies {
            &&& !gone.contains(rs[i].id)
            &&& exists|p: int| 0 <= p < now.len() && #[trigger] now[p] == unlinked_from(rs[i], gone)
        } by {
            if gone.contains(rs[i].id) {
                let j = choose|j: int|
                    0 <= j < rs.len() && (#[trigger] rs[j]).id == rs[i].id && has_file(
                        done,
                        rs[j].file_id,
                    ) && !stays(rs, rs[j], cutoff_ms);
                if i < j {
                    assert(rs[i].id < rs[j].id);
                } else if j < i {
                    assert(rs[j].id < rs[i].id);
                }
            }
            assert(all[i] == rs[i]);
            lemma_survivor_present(all, gone, i);
        }
    }
    assert(found_before(rs, now, gone, file_id)) by {
        reveal(found_before);
        assert forall|p: int| 0 <= p < now.len() && (#[trigger] now[p]).file_id
            == file_id implies exists|i: int|
            0 <= i < rs.len() && now[p] == unlinked_from(#[trigger] rs[i], gone) by {
            lemma_survivor_origin(all, gone, p);
            let i = choose|i: int|
                0 <= i < all.len() && now[p] == unlinked_from(#[trigger] all[i], gone)
                    && !gone.contains(all[i].id);
            assert(all[i] == part_row(rs, done, rs[i], cutoff_ms));
            assert(rs[i].file_id == file_id);
            assert(now[p] == unlinked_from(rs[i], gone));
        }
    }
}

/// What is no full copy loses no link while other files are pruned.
proof fn lemma_link_stays(
    t: Tables,
    now: Seq<RevisionView>,
    gone: Set<i64>,
    file_id: i64,
    at: int,
)
    requires
        t.wf(),
        bases_stay_in_files(t.revisions),
        keeps_file(t.revisions, now, gone, file_id),
        0 <= at < t.revisions.len(),
        t.revisions[at].file_id == file_id,
        t.revisions[at].storage_kind != StorageKind::Full,
    ensures
        unlinked_from(t.revisions[at], gone) == t.revisions[at],
        t.revisions[at].base_revision_id matches Some(b) ==> exists|j: int|
            0 <= j < t.revisions.len() && (#[trigger] t.revisions[j]).id == b
                && t.revisions[j].file_id == file_id,
{
    let rs = t.revisions;
    let r = rs[at];
    if r.base_revision_id is Some {
        let b = r.base_revision_id->Some_0;
        assert(base_holds(rs, rs[at]));
        let j = choose|j: int| 0 <= j < rs.len() && (#[trigger] rs[j]).id == b;
        lemma_revision_at(rs, j);
        assert(base_stays_in_file(rs, rs[at]));
        assert(rs[j].file_id == file_id);
        let p = position_now(rs, now, gone, file_id, j);
    }
}

/// The newest revision of a file up to the cutoff is the same, but for its link.
proof fn lemma_latest_stays(
    rs: Seq<RevisionView>,
    now: Seq<RevisionView>,
    gone: Set<i64>,
    file_id: i64,
    cutoff_ms: i64,
)
    requires
        keeps_file(rs, now, gone, file_id),
    ensures
        latest_at(now, file_id, cutoff_ms) == (match latest_at(rs, file_id, cutoff_ms) {
            Some(r) => Some(unlinked_from(r, gone)),
            None => None,
        }),
{
    lemma_latest_at(rs, file_id, cutoff_ms);
    lemma_latest_at(now, file_id, cutoff_ms);
    match latest_at(rs, file_id, cutoff_ms) {
        Some(r) => {
            let i = choose|i: int| 0 <= i < rs.len() && #[trigger] rs[i] == r;
            let p = position_now(rs, now, gone, file_id, i);
            assert forall|q: int|
                0 <= q < now.len() && (#[trigger] now[q]).file_id == file_id
                    && now[q].recorded_at_ms <= cutoff_ms implies !newer(
                now[q],
                now[p],
            ) by {
                let j = position_before(rs, now, gone, file_id, q);
                assert(rs[j].file_id == file_id);
            }
            lemma_latest_is(now, file_id, cutoff_ms, p);
        },
        None => {
            if latest_at(now, file_id, cutoff_ms) is Some {
                let r = latest_at(now, file_id, cutoff_ms)->Some_0;
                let q = choose|q: int| 0 <= q < now.len() && #[trigger] now[q] == r;
                let j = position_before(rs, now, gone, file_id, q);
                assert(rs[j].file_id == file_id);
            }
        },
    }
}

/// What a revision of a file gives does not change while other files are pruned.
proof fn lemma_outcome_stays(
    t: Tables,
    now: Seq<RevisionView>,
    gone: Set<i64>,
    file_id: i64,
    at: int,
    asked: i64,
    passed: Set<i64>,
)
    requires
        t.wf(),
        bases_stay_in_files(t.revisions),
        keeps_file(t.revisions, now, gone, file_id),
        0 <= at < t.revisions.len(),
        t.revisions[at].file_id == file_id,
    ensures
        outcome(now, unlinked_from(t.revisions[at], gone), asked, passed) == outcome(
            t.revisions,
            t.revisions[at],
            asked,
            passed,
        ),
    decreases numbers_of(t.revisions).difference(passed).len(),
{
    let rs = t.revisions;
    let r = rs[at];
    let row = unlinked_from(r, gone);
    if r.storage_kind == StorageKind::Full {
        lemma_one_full(now, row, asked, passed);
        lemma_one_full(rs, r, asked, passed);
    } else {
        lemma_link_stays(t, now, gone, file_id, at);
        if r.base_revision_id is Some {
            let b = r.base_revision_id->Some_0;
            let j = choose|j: int|
                0 <= j < rs.len() && (#[trigger] rs[j]).id == b && rs[j].file_id == file_id;
            let q = position_now(rs, now, gone, file_id, j);
            lemma_revision_at(rs, j);
            lemma_revision_at(now, q);
            assert(now[q].id == b);
            if !passed.contains(b) {
                lemma_unpassed(rs, b, passed);
                lemma_outcome_stays(t, now, gone, file_id, j, asked, passed.insert(b));
                lemma_outcome_step(rs, r, asked, passed);
                lemma_outcome_step(now, r, asked, passed);
            }
        }
    }
}

/// Pruning a file fails as it would before other files were pruned, and has an anchor where
/// it had one.
proof fn lemma_anchor_stays(
    t: Tables,
    now: Seq<RevisionView>,
    gone: Set<i64>,
    file_id: i64,
    cutoff_ms: i64,
)
    requires
        t.wf(),
        bases_stay_in_files(t.revisions),
        keeps_file(t.revisions, now, gone, file_id),
    ensures
        anchor_failure(now, file_id, cutoff_ms) == anchor_failure(
            t.revisions,
            file_id,
            cutoff_ms,
        ),
        latest_at(now, file_id, cutoff_ms) is Some == latest_at(
            t.revisions,
            file_id,
            cutoff_ms,
        ) is Some,
{
    let rs = t.revisions;
    lemma_latest_stays(rs, now, gone, file_id, cutoff_ms);
    lemma_latest_at(rs, file_id, cutoff_ms);
    if latest_at(rs, file_id, cutoff_ms) is Some {
        let r = latest_at(rs, file_id, cutoff_ms)->Some_0;
        let i = choose|i: int| 0 <= i < rs.len() && #[trigger] rs[i] == r;
        if needs_full_copy(r) {
            lemma_link_stays(t, now, gone, file_id, i);
            lemma_outcome_stays(t, now, gone, file_id, i, r.id, set![r.id]);
            assert(content_of(now, r) == content_of(rs, r));
        }
    }
}

/// A revision of a file becomes what it would have become before other files were pruned,
/// and stays where it would have stayed.
proof fn lemma_settling_stays(
    t: Tables,
    now: Seq<RevisionView>,
    gone: Set<i64>,
    file_id: i64,
    cutoff_ms: i64,
    at: int,
)
    requires
        t.wf(),
        bases_stay_in_files(t.revisions),
        keeps_file(t.revisions, now, gone, file_id),
        0 <= at < t.revisions.len(),
        t.revisions[at].file_id == file_id,
    ensures
        settled(now, unlinked_from(t.revisions[at], gone), cutoff_ms) == unlinked_from(
            settled(t.revisions, t.revisions[at], cutoff_ms),
            gone,
        ),
        stays(now, unlinked_from(t.revisions[at], gone), cutoff_ms) == stays(
            t.revisions,
            t.revisions[at],
            cutoff_ms,
        ),
{
    let rs = t.revisions;
    let r = rs[at];
    let row = unlinked_from(r, gone);
    lemma_latest_stays(rs, now, gone, file_id, cutoff_ms);
    lemma_latest_at(rs, file_id, cutoff_ms);
    assert(is_anchor(now, row, cutoff_ms) == is_anchor(rs, r, cutoff_ms)) by {
        if latest_at(rs, file_id, cutoff_ms) is Some {
            let best = latest_at(rs, file_id, cutoff_ms)->Some_0;
            let i = choose|i: int| 0 <= i < rs.len() && #[trigger] rs[i] == best;
            if i < at {
                assert(rs[i].id < rs[at].id);
            } else if at < i {
                assert(rs[at].id < rs[i].id);
            }
        }
    }
    if is_anchor(rs, r, cutoff_ms) && needs_full_copy(r) {
        lemma_link_stays(t, now, gone, file_id, at);
        lemma_outcome_stays(t, now, gone, file_id, at, r.id, set![r.id]);
        assert(content_of(now, r) == content_of(rs, r));
    }
}

// ---------------------------------------------------------------------------
// One more file
// ---------------------------------------------------------------------------

/// Changing what survives is changing what it came from.
proof fn lemma_survivors_mapped(
    a: Seq<RevisionView>,
    b: Seq<RevisionView>,
    gone: Set<i64>,
    f: spec_fn(RevisionView) -> RevisionView,
)
    requires
        a.len() == b.len(),
        forall|i: int|
            0 <= i < a.len() ==> {
                &&& (#[trigger] a[i]).id == b[i].id
                &&& !gone.contains(a[i].id) ==> f(unlinked_from(a[i], gone)) == unlinked_from(
                    b[i],
                    gone,
                )
            },
    ensures
        survivors(a, gone).map_values(f) == survivors(b, gone),
    decreases a.len(),
{
    if a.len() > 0 {
        let x = a.drop_last();
        let y = b.drop_last();
        assert forall|i: int| 0 <= i < x.len() implies {
            &&& (#[trigger] x[i]).id == y[i].id
            &&& !gone.contains(x[i].id) ==> f(unlinked_from(x[i], gone)) == unlinked_from(
                y[i],
                gone,
            )
        } by {
            assert(x[i] == a[i] && y[i] == b[i]);
        }
        lemma_survivors_mapped(x, y, gone, f);
        let k = a.len() - 1;
        assert(a[k].id == b[k].id);
        assert(survivors(a, gone).map_values(f) =~= survivors(b, gone));
    } else {
        assert(survivors(a, gone).map_values(f) =~= survivors(b, gone));
    }
}

/// What survives two removals survives both at once.
proof fn lemma_survivors_twice(rs: Seq<RevisionView>, first: Set<i64>, second: Set<i64>)
    ensures
        survivors(survivors(rs, first), second) == survivors(rs, first.union(second)),
    decreases rs.len(),
{
    if rs.len() > 0 {
        let rest = rs.drop_last();
        let last = rs.last();
        lemma_survivors_twice(rest, first, second);
        if !first.contains(last.id) {
            let once = survivors(rs, first);
            let row = unlinked_from(last, first);
            assert(once == survivors(rest, first).push(row));
            assert(once.drop_last() =~= survivors(rest, first));
            assert(once.last() == row);
            assert(unlinked_from(row, second) == unlinked_from(last, first.union(second)));
        }
    } else {
        assert(survivors(survivors(rs, first), second) =~= survivors(rs, first.union(second)));
    }
}

/// Pruning one more file.
proof fn lemma_one_more_file(t: Tables, done: Seq<FileView>, f: FileView, cutoff_ms: i64)
    requires
        t.wf(),
        bases_stay_in_files(t.revisions),
        !has_file(done, f.id),
    ensures
        file_pruned(part_pruned(t.revisions, done, cutoff_ms), f.id, cutoff_ms) == part_pruned(
            t.revisions,
            done.push(f),
            cutoff_ms,
        ),
{
    let rs = t.revisions;
    let more = done.push(f);
    let gone = part_gone(rs, done, cutoff_ms);
    let now = part_pruned(rs, done, cutoff_ms);
    let a = part_settled(rs, done, cutoff_ms);
    let b = part_settled(rs, more, cutoff_ms);
    lemma_part_keeps_file(t, done, cutoff_ms, f.id);
    assert forall|id: i64| #[trigger] has_file(more, id) == (has_file(done, id) || id == f.id) by {
        if has_file(more, id) {
            let k = choose|k: int| 0 <= k < more.len() && (#[trigger] more[k]).id == id;
            if k < done.len() {
                assert(done[k].id == id);
            }
        }
        if has_file(done, id) {
            let k = choose|k: int| 0 <= k < done.len() && (#[trigger] done[k]).id == id;
            assert(more[k].id == id);
        }
        assert(more[done.len() as int].id == f.id);
    }
    let g = |r: RevisionView|
        if r.file_id == f.id {
            settled(now, r, cutoff_ms)
        } else {
            r
        };
    assert forall|i: int| 0 <= i < a.len() implies {
        &&& (#[trigger] a[i]).id == b[i].id
        &&& !gone.contains(a[i].id) ==> g(unlinked_from(a[i], gone)) == unlinked_from(b[i], gone)
    } by {
        assert(a[i] == part_row(rs, done, rs[i], cutoff_ms));
        assert(b[i] == part_row(rs, more, rs[i], cutoff_ms));
        assert(has_file(more, rs[i].file_id) == (has_file(done, rs[i].file_id) || rs[i].file_id
            == f.id));
        if rs[i].file_id == f.id {
            lemma_settling_stays(t, now, gone, f.id, cutoff_ms, i);
        }
    }
    lemma_survivors_mapped(a, b, gone, g);
    assert(file_settled(now, f.id, cutoff_ms) =~= now.map_values(g));
    let second = file_gone(now, f.id, cutoff_ms);
    lemma_survivors_twice(b, gone, second);
    assert forall|id: i64| gone.union(second).contains(id) == part_gone(
        rs,
        more,
        cutoff_ms,
    ).contains(id) by {
        if gone.contains(id) {
            let i = choose|i: int|
                0 <= i < rs.len() && (#[trigger] rs[i]).id == id && has_file(done, rs[i].file_id)
                    && !stays(rs, rs[i], cutoff_ms);
            assert(has_file(more, rs[i].file_id));
            assert(part_gone(rs, more, cutoff_ms).contains(rs[i].id));
        }
        if second.contains(id) {
            let p = choose|p: int|
                0 <= p < now.len() && (#[trigger] now[p]).id == id && now[p].file_id == f.id
                    && !stays(now, now[p], cutoff_ms);
            let i = position_before(rs, now, gone, f.id, p);
            lemma_settling_stays(t, now, gone, f.id, cutoff_ms, i);
            assert(has_file(more, rs[i].file_id));
            assert(part_gone(rs, more, cutoff_ms).contains(rs[i].id));
        }
        if part_gone(rs, more, cutoff_ms).contains(id) {
            let i = choose|i: int|
                0 <= i < rs.len() && (#[trigger] rs[i]).id == id && has_file(more, rs[i].file_id)
                    && !stays(rs, rs[i], cutoff_ms);
            if has_file(done, rs[i].file_id) {
                assert(gone.contains(rs[i].id));
            } else {
                assert(rs[i].file_id == f.id);
                let p = position_now(rs, now, gone, f.id, i);
                lemma_settling_stays(t, now, gone, f.id, cutoff_ms, i);
                assert(second.contains(now[p].id));
            }
        }
    }
    assert(gone.union(second) =~= part_gone(rs, more, cutoff_ms));
}

proof fn lemma_first_files(t: Tables, n: int, cutoff_ms: i64)
    requires
        t.wf(),
        bases_stay_in_files(t.revisions),
        0 <= n <= t.files.len(),
    ensures
        one_by_one(t.files.take(n), t.revisions, cutoff_ms) == (match prune_failure(
            t.files.take(n),
            t.revisions,
            cutoff_ms,
        ) {
            Some(e) => Err::<(Seq<RevisionView>, nat), StoreError>(e),
            None => Ok(
                (
                    part_pruned(t.revisions, t.files.take(n), cutoff_ms),
                    anchor_count(t.files.take(n), t.revisions, cutoff_ms),
                ),
            ),
        }),
    decreases n,
{
    let rs = t.revisions;
    let fs = t.files;
    let done = fs.take(n);
    if n == 0 {
        assert(part_settled(rs, done, cutoff_ms) =~= rs);
        assert(part_gone(rs, done, cutoff_ms) =~= Set::<i64>::empty());
        lemma_survivors_of_none(rs);
    } else {
        lemma_first_files(t, n - 1, cutoff_ms);
        let before = fs.take(n - 1);
        let f = fs[n - 1];
        assert(done.drop_last() =~= before);
        assert(done.last() == f);
        assert(done =~= before.push(f));
        if prune_failure(before, rs, cutoff_ms) is None {
            assert(!has_file(before, f.id)) by {
                if has_file(before, f.id) {
                    let k = choose|k: int| 0 <= k < before.len() && (#[trigger] before[k]).id
                        == f.id;
                    assert(fs[k].id < fs[n - 1].id);
                }
            }
            lemma_part_keeps_file(t, before, cutoff_ms, f.id);
            lemma_anchor_stays(
                t,
                part_pruned(rs, before, cutoff_ms),
                part_gone(rs, before, cutoff_ms),
                f.id,
                cutoff_ms,
            );
            lemma_one_more_file(t, before, f, cutoff_ms);
        }
    }
}

/// Where what a row names is there and every base stays in its file, pruning one file after
/// the other is pruning all at once: it fails where the anchor of some file cannot be read,
/// for the first such file, and otherwise leaves the same rows and counts the same anchors.
pub proof fn law_files_are_pruned_apart(t: Tables, cutoff_ms: i64)
    requires
        t.wf(),
        bases_stay_in_files(t.revisions),
    ensures
        prune_outcome(t, cutoff_ms) == (match prune_failure(t.files, t.revisions, cutoff_ms) {
            Some(e) => Err::<(Tables, nat), StoreError>(e),
            None => Ok((pruned(t, cutoff_ms), anchor_count(t.files, t.revisions, cutoff_ms))),
        }),
{
    let rs = t.revisions;
    let fs = t.files;
    lemma_first_files(t, fs.len() as int, cutoff_ms);
    assert(fs.take(fs.len() as int) =~= fs);
    assert forall|i: int| 0 <= i < rs.len() implies #[trigger] has_file(fs, rs[i].file_id) by {
        assert(has_file(fs, rs[i].file_id));
    }
    assert(part_settled(rs, fs, cutoff_ms) =~= all_settled(rs, cutoff_ms)) by {
        assert forall|i: int| 0 <= i < rs.len() implies #[trigger] part_settled(
            rs,
            fs,
            cutoff_ms,
        )[i] == all_settled(rs, cutoff_ms)[i] by {
            assert(has_file(fs, rs[i].file_id));
        }
    }
    let n = rs.len() as int;
    assert forall|id: i64| part_gone(rs, fs, cutoff_ms).contains(id) == gone_until(
        rs,
        cutoff_ms,
        n,
    ).contains(id) by {
        if part_gone(rs, fs, cutoff_ms).contains(id) {
            let i = choose|i: int|
                0 <= i < rs.len() && (#[trigger] rs[i]).id == id && has_file(fs, rs[i].file_id)
                    && !stays(rs, rs[i], cutoff_ms);
            assert(rs[i].id == id);
        }
        if gone_until(rs, cutoff_ms, n).contains(id) {
            let i = choose|i: int|
                0 <= i < n && i < rs.len() && (#[trigger] rs[i]).id == id && !stays(
                    rs,
                    rs[i],
                    cutoff_ms,
                );
            assert(has_file(fs, rs[i].file_id));
        }
    }
    assert(part_gone(rs, fs, cutoff_ms) =~= gone_until(rs, cutoff_ms, n));
}

} // verus!
