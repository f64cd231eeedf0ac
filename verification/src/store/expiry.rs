//! What a pruning removes and what it keeps, by the times of the revisions.
use vstd::prelude::*;
use vstd::utf8::*;

use crate::store::lookup::{
    content_of,
    latest_at,
    lemma_latest_at,
    lemma_latest_is,
    materialized,
    newer,
};
use crate::store::prune::{
    cutoff_at,
    file_gone,
    file_pruned,
    file_settled,
    full_copy,
    lemma_survivor_origin,
    lemma_survivor_present,
    one_by_one,
    prune_outcome,
    stays,
    unlinked_from,
};
use crate::store::retention::lemma_survivors_ascend;
use crate::store::record::sha256_hex;
use crate::store::rows::{EventType, FileView, RevisionView, StorageKind};
use crate::store::tables::{has_file, revision_ids_ascend, StoreError, Tables};
use crate::text::byte_len;

verus! {

/// Whether two rows stand for the same recording: the same number, file, ordinal, time and
/// event.
pub open spec fn same_recording(a: RevisionView, b: RevisionView) -> bool {
    &&& a.id == b.id
    &&& a.file_id == b.file_id
    &&& a.ordinal == b.ordinal
    &&& a.recorded_at_ms == b.recorded_at_ms
    &&& a.event_type == b.event_type
}

/// Whether a recording is among some rows.
pub open spec fn is_held(rs: Seq<RevisionView>, r: RevisionView) -> bool {
    exists|i: int| 0 <= i < rs.len() && same_recording(#[trigger] rs[i], r)
}

/// Whether no revision of the same file that was recorded by a time is newer: none was
/// recorded later by then, or at the same time under a higher number.
pub open spec fn held_at(rs: Seq<RevisionView>, r: RevisionView, at_ms: i64) -> bool {
    &&& r.recorded_at_ms <= at_ms
    &&& forall|i: int|
        0 <= i < rs.len() && (#[trigger] rs[i]).file_id == r.file_id && rs[i].recorded_at_ms
            <= at_ms ==> rs[i].recorded_at_ms < r.recorded_at_ms || (rs[i].recorded_at_ms
            == r.recorded_at_ms && rs[i].id <= r.id)
}

/// Whether a pruning keeps a revision: it is newer than the cutoff, or the one that held
/// at the cutoff.
pub open spec fn is_kept(rs: Seq<RevisionView>, r: RevisionView, cutoff_ms: i64) -> bool {
    r.recorded_at_ms > cutoff_ms || held_at(rs, r, cutoff_ms)
}

/// What holds once the files of a list were pruned.
spec fn pruned_so_far(
    rs: Seq<RevisionView>,
    now: Seq<RevisionView>,
    done: Seq<FileView>,
    cutoff_ms: i64,
    last: i64,
) -> bool {
    &&& revision_ids_ascend(now, last)
    &&& all_from(rs, now, done, cutoff_ms)
    &&& all_there(rs, now, done, cutoff_ms)
}

/// Whether every row comes from one before, and those of the files of a list are kept.
#[verifier::opaque]
spec fn all_from(
    rs: Seq<RevisionView>,
    now: Seq<RevisionView>,
    done: Seq<FileView>,
    cutoff_ms: i64,
) -> bool {
    forall|p: int|
        0 <= p < now.len() ==> is_held(rs, #[trigger] now[p]) && (has_file(done, now[p].file_id)
            ==> is_kept(rs, now[p], cutoff_ms))
}

/// Whether every row is still there, those of the files of a list where they are kept.
#[verifier::opaque]
spec fn all_there(
    rs: Seq<RevisionView>,
    now: Seq<RevisionView>,
    done: Seq<FileView>,
    cutoff_ms: i64,
) -> bool {
    forall|i: int|
        0 <= i < rs.len() && (!has_file(done, (#[trigger] rs[i]).file_id) || is_kept(
            rs,
            rs[i],
            cutoff_ms,
        )) ==> is_held(now, rs[i])
}

/// Before a file is pruned, its revisions are those that it had.
proof fn lemma_same_latest(
    rs: Seq<RevisionView>,
    now: Seq<RevisionView>,
    done: Seq<FileView>,
    cutoff_ms: i64,
    last: i64,
    r: RevisionView,
)
    requires
        pruned_so_far(rs, now, done, cutoff_ms, last),
        !has_file(done, r.file_id),
        exists|p: int| 0 <= p < now.len() && #[trigger] now[p] == r,
    ensures
        stays(now, r, cutoff_ms) == is_kept(rs, r, cutoff_ms),
{
    let p = choose|p: int| 0 <= p < now.len() && #[trigger] now[p] == r;
    lemma_latest_at(now, r.file_id, cutoff_ms);
    if held_at(rs, r, cutoff_ms) {
        assert forall|q: int|
            0 <= q < now.len() && (#[trigger] now[q]).file_id == r.file_id
                && now[q].recorded_at_ms <= cutoff_ms implies !newer(now[q], now[p]) by {
            reveal(all_from);
            assert(is_held(rs, now[q]));
            let i = choose|i: int| 0 <= i < rs.len() && same_recording(#[trigger] rs[i], now[q]);
            assert(rs[i].file_id == r.file_id);
        }
        lemma_latest_is(now, r.file_id, cutoff_ms, p);
    }
    if latest_at(now, r.file_id, cutoff_ms) == Some(r) {
        assert forall|i: int|
            0 <= i < rs.len() && (#[trigger] rs[i]).file_id == r.file_id && rs[i].recorded_at_ms
                <= cutoff_ms implies rs[i].recorded_at_ms < r.recorded_at_ms || (
        rs[i].recorded_at_ms == r.recorded_at_ms && rs[i].id <= r.id) by {
            reveal(all_there);
            assert(is_held(now, rs[i]));
            let q = choose|q: int| 0 <= q < now.len() && same_recording(#[trigger] now[q], rs[i]);
            assert(!newer(now[q], r));
        }
    }
}

proof fn lemma_one_more_pruned(
    rs: Seq<RevisionView>,
    now: Seq<RevisionView>,
    done: Seq<FileView>,
    f: FileView,
    cutoff_ms: i64,
    last: i64,
)
    requires
        pruned_so_far(rs, now, done, cutoff_ms, last),
        !has_file(done, f.id),
    ensures
        pruned_so_far(rs, file_pruned(now, f.id, cutoff_ms), done.push(f), cutoff_ms, last),
{
    let more = done.push(f);
    let all = file_settled(now, f.id, cutoff_ms);
    let gone = file_gone(now, f.id, cutoff_ms);
    let next = file_pruned(now, f.id, cutoff_ms);
    assert(forall|i: int|
        0 <= i < now.len() ==> same_recording(#[trigger] all[i], now[i]));
    assert(revision_ids_ascend(all, last)) by {
        assert forall|i: int, j: int| 0 <= i < j < all.len() implies (#[trigger] all[i]).id < (
        #[trigger] all[j]).id by {
            assert(now[i].id < now[j].id);
        }
        assert forall|i: int| 0 <= i < all.len() implies (#[trigger] all[i]).id <= last by {
            assert(now[i].id <= last);
        }
    }
    lemma_survivors_ascend(all, gone, last);
    assert forall|id: i64| #[trigger] has_file(more, id) == (has_file(done, id) || id == f.id) by {
        if has_file(more, id) {
            let k = choose|k: int| 0 <= k < more.len() && (#[trigger] more[k]).id == id;
            if k < done.len() {
                assert(done[k].id == id);
            }
        }
        if has_file(done, id) {
            let k = choose|k: int| 0 <= k < done.len() && (#[trigger] done[k]).id == id;
            assert(more[k].id == id);
        }
        assert(more[done.len() as int].id == f.id);
    }
    assert(all_from(rs, next, more, cutoff_ms)) by {
        reveal(all_from);
        assert forall|p: int| 0 <= p < next.len() implies is_held(rs, #[trigger] next[p]) && (
        has_file(more, next[p].file_id) ==> is_kept(rs, next[p], cutoff_ms)) by {
            lemma_survivor_origin(all, gone, p);
            let k = choose|k: int|
                0 <= k < all.len() && next[p] == unlinked_from(#[trigger] all[k], gone)
                    && !gone.contains(all[k].id);
            assert(same_recording(all[k], now[k]));
            assert(same_recording(next[p], now[k]));
            assert(is_held(rs, now[k]));
            let i = choose|i: int| 0 <= i < rs.len() && same_recording(#[trigger] rs[i], now[k]);
            assert(same_recording(rs[i], next[p]));
            if has_file(more, next[p].file_id) && !has_file(done, next[p].file_id) {
                assert(now[k].file_id == f.id);
                assert(stays(now, now[k], cutoff_ms)) by {
                    if !stays(now, now[k], cutoff_ms) {
                        assert(gone.contains(now[k].id));
                    }
                }
                lemma_same_latest(rs, now, done, cutoff_ms, last, now[k]);
            }
        }
    }
    assert(all_there(rs, next, more, cutoff_ms)) by {
        assert forall|i: int|
            0 <= i < rs.len() && (!has_file(more, (#[trigger] rs[i]).file_id) || is_kept(
                rs,
                rs[i],
                cutoff_ms,
            )) implies is_held(next, rs[i]) by {
            assert(is_held(now, rs[i])) by {
                reveal(all_there);
            }
            let k = choose|k: int| 0 <= k < now.len() && same_recording(#[trigger] now[k], rs[i]);
            assert(!gone.contains(all[k].id)) by {
                if gone.contains(now[k].id) {
                    let q = choose|q: int|
                        0 <= q < now.len() && (#[trigger] now[q]).id == now[k].id
                            && now[q].file_id == f.id && !stays(now, now[q], cutoff_ms);
                    if q < k {
                        assert(now[q].id < now[k].id);
                    } else if k < q {
                        assert(now[k].id < now[q].id);
                    }
                    lemma_same_latest(rs, now, done, cutoff_ms, last, now[k]);
                    assert(is_kept(rs, rs[i], cutoff_ms));
                    assert(held_at(rs, rs[i], cutoff_ms) ==> held_at(rs, now[k], cutoff_ms));
                }
            }
            lemma_survivor_present(all, gone, k);
            let p = choose|p: int|
                0 <= p < next.len() && #[trigger] next[p] == unlinked_from(all[k], gone);
            assert(same_recording(all[k], now[k]));
            assert(same_recording(next[p], rs[i]));
        }
        reveal(all_there);
    }
}

proof fn lemma_files_pruned(t: Tables, n: int, cutoff_ms: i64)
    requires
        t.keyed(),
        0 <= n <= t.files.len(),
        one_by_one(t.files.take(n), t.revisions, cutoff_ms) is Ok,
    ensures
        pruned_so_far(
            t.revisions,
            one_by_one(t.files.take(n), t.revisions, cutoff_ms)->Ok_0.0,
            t.files.take(n),
            cutoff_ms,
            t.last_revision_id,
        ),
    decreases n,
{
    let fs = t.files;
    let rs = t.revisions;
    let done = fs.take(n);
    if n == 0 {
        assert(all_from(rs, rs, done, cutoff_ms)) by {
            reveal(all_from);
            assert forall|p: int| 0 <= p < rs.len() implies is_held(rs, #[trigger] rs[p]) && (
            has_file(done, rs[p].file_id) ==> is_kept(rs, rs[p], cutoff_ms)) by {
                assert(same_recording(rs[p], rs[p]));
            }
        }
        assert(all_there(rs, rs, done, cutoff_ms)) by {
            reveal(all_there);
            assert forall|i: int|
                0 <= i < rs.len() && (!has_file(done, (#[trigger] rs[i]).file_id) || is_kept(
                    rs,
                    rs[i],
                    cutoff_ms,
                )) implies is_held(rs, rs[i]) by {
                assert(same_recording(rs[i], rs[i]));
            }
        }
    } else {
        let before = fs.take(n - 1);
        let f = fs[n - 1];
        assert(done.drop_last() =~= before);
        assert(done =~= before.push(f));
        lemma_files_pruned(t, n - 1, cutoff_ms);
        assert(!has_file(before, f.id)) by {
            if has_file(before, f.id) {
                let k = choose|k: int| 0 <= k < before.len() && (#[trigger] before[k]).id == f.id;
                assert(fs[k].id < fs[n - 1].id);
            }
        }
        let now = one_by_one(before, rs, cutoff_ms)->Ok_0.0;
        lemma_one_more_pruned(rs, now, before, f, cutoff_ms, t.last_revision_id);
    }
}

/// A pruning removes of every file exactly what was recorded by the cutoff and did not hold
/// any more then. What is left of a file is newer than the cutoff, or the one revision that
/// held at the cutoff; all of that is left, as it was recorded; and so is every revision that
/// belongs to no file. Files, contexts and the watcher stay as they are.
pub proof fn law_pruning_removes_what_expired(t: Tables, cutoff_ms: i64)
    requires
        t.keyed(),
        prune_outcome(t, cutoff_ms) is Ok,
    ensures
        ({
            let rs = t.revisions;
            let u = prune_outcome(t, cutoff_ms)->Ok_0.0;
            &&& u.files == t.files
            &&& u.contexts == t.contexts
            &&& u.watcher == t.watcher
            &&& forall|p: int|
                0 <= p < u.revisions.len() ==> is_held(rs, #[trigger] u.revisions[p])
            &&& forall|p: int|
                0 <= p < u.revisions.len() && has_file(
                    t.files,
                    (#[trigger] u.revisions[p]).file_id,
                ) ==> u.revisions[p].recorded_at_ms > cutoff_ms || held_at(
                    rs,
                    u.revisions[p],
                    cutoff_ms,
                )
            &&& forall|i: int|
                0 <= i < rs.len() && (!has_file(t.files, (#[trigger] rs[i]).file_id)
                    || rs[i].recorded_at_ms > cutoff_ms || held_at(rs, rs[i], cutoff_ms))
                    ==> is_held(u.revisions, rs[i])
        }),
{
    assert(t.files.take(t.files.len() as int) =~= t.files);
    lemma_files_pruned(t, t.files.len() as int, cutoff_ms);
    reveal(all_from);
    reveal(all_there);
    let rs = t.revisions;
    let us = prune_outcome(t, cutoff_ms)->Ok_0.0.revisions;
    assert forall|p: int| 0 <= p < us.len() && has_file(t.files, (#[trigger] us[p]).file_id) implies
        us[p].recorded_at_ms > cutoff_ms || held_at(rs, us[p], cutoff_ms) by {
        assert(is_kept(rs, us[p], cutoff_ms));
    }
    assert forall|i: int|
        0 <= i < rs.len() && (!has_file(t.files, (#[trigger] rs[i]).file_id)
            || rs[i].recorded_at_ms > cutoff_ms || held_at(rs, rs[i], cutoff_ms)) implies is_held(
        us,
        rs[i],
    ) by {
        assert(!has_file(t.files, rs[i].file_id) || is_kept(rs, rs[i], cutoff_ms));
    }
}

/// At most one revision of a file that was recorded by the cutoff is left.
pub proof fn law_pruning_leaves_one_anchor(t: Tables, cutoff_ms: i64, p: int, q: int)
    requires
        t.keyed(),
        prune_outcome(t, cutoff_ms) is Ok,
        0 <= p < prune_outcome(t, cutoff_ms)->Ok_0.0.revisions.len(),
        0 <= q < prune_outcome(t, cutoff_ms)->Ok_0.0.revisions.len(),
        ({
            let us = prune_outcome(t, cutoff_ms)->Ok_0.0.revisions;
            &&& has_file(t.files, us[p].file_id)
            &&& us[p].file_id == us[q].file_id
            &&& us[p].recorded_at_ms <= cutoff_ms
            &&& us[q].recorded_at_ms <= cutoff_ms
        }),
    ensures
        p == q,
{
    let rs = t.revisions;
    let us = prune_outcome(t, cutoff_ms)->Ok_0.0.revisions;
    assert(t.files.take(t.files.len() as int) =~= t.files);
    lemma_files_pruned(t, t.files.len() as int, cutoff_ms);
    law_pruning_removes_what_expired(t, cutoff_ms);
    assert(is_held(rs, us[p]) && is_held(rs, us[q]));
    let i = choose|i: int| 0 <= i < rs.len() && same_recording(#[trigger] rs[i], us[p]);
    let j = choose|j: int| 0 <= j < rs.len() && same_recording(#[trigger] rs[j], us[q]);
    assert(held_at(rs, us[p], cutoff_ms));
    assert(held_at(rs, us[q], cutoff_ms));
    assert(rs[i].file_id == us[q].file_id);
    assert(rs[j].file_id == us[p].file_id);
    if p < q {
        assert(us[p].id < us[q].id);
    } else if q < p {
        assert(us[q].id < us[p].id);
    }
}

/// A pruning counts the files of which something was recorded by the cutoff.
pub proof fn law_pruning_counts_anchors(t: Tables, cutoff_ms: i64)
    requires
        t.keyed(),
        prune_outcome(t, cutoff_ms) is Ok,
    ensures
        prune_outcome(t, cutoff_ms)->Ok_0.1 == t.files.filter(
            |f: FileView|
                exists|i: int|
                    0 <= i < t.revisions.len() && (#[trigger] t.revisions[i]).file_id == f.id
                        && t.revisions[i].recorded_at_ms <= cutoff_ms,
        ).len(),
{
    assert(t.files.take(t.files.len() as int) =~= t.files);
    lemma_anchors_counted(t, t.files.len() as int, cutoff_ms);
}

proof fn lemma_anchors_counted(t: Tables, n: int, cutoff_ms: i64)
    requires
        t.keyed(),
        0 <= n <= t.files.len(),
        one_by_one(t.files.take(n), t.revisions, cutoff_ms) is Ok,
    ensures
        one_by_one(t.files.take(n), t.revisions, cutoff_ms)->Ok_0.1 == t.files.take(n).filter(
            |f: FileView|
                exists|i: int|
                    0 <= i < t.revisions.len() && (#[trigger] t.revisions[i]).file_id == f.id
                        && t.revisions[i].recorded_at_ms <= cutoff_ms,
        ).len(),
    decreases n,
{
    let fs = t.files;
    let rs = t.revisions;
    let has = |f: FileView|
        exists|i: int|
            0 <= i < t.revisions.len() && (#[trigger] t.revisions[i]).file_id == f.id
                && t.revisions[i].recorded_at_ms <= cutoff_ms;
    reveal(Seq::filter);
    if n > 0 {
        let done = fs.take(n);
        let before = fs.take(n - 1);
        let f = fs[n - 1];
        assert(done.drop_last() =~= before);
        assert(done.last() == f);
        lemma_anchors_counted(t, n - 1, cutoff_ms);
        lemma_files_pruned(t, n - 1, cutoff_ms);
        let now = one_by_one(before, rs, cutoff_ms)->Ok_0.0;
        lemma_latest_at(now, f.id, cutoff_ms);
        assert(!has_file(before, f.id)) by {
            if has_file(before, f.id) {
                let k = choose|k: int| 0 <= k < before.len() && (#[trigger] before[k]).id == f.id;
                assert(fs[k].id < fs[n - 1].id);
            }
        }
        assert(has(f) == (latest_at(now, f.id, cutoff_ms) is Some)) by {
            if has(f) {
                reveal(all_there);
                let i = choose|i: int|
                    0 <= i < rs.len() && (#[trigger] rs[i]).file_id == f.id
                        && rs[i].recorded_at_ms <= cutoff_ms;
                assert(is_held(now, rs[i]));
                let q = choose|q: int|
                    0 <= q < now.len() && same_recording(#[trigger] now[q], rs[i]);
                assert(now[q].file_id == f.id);
            }
            if latest_at(now, f.id, cutoff_ms) is Some {
                reveal(all_from);
                let r = latest_at(now, f.id, cutoff_ms)->Some_0;
                let q = choose|q: int| 0 <= q < now.len() && #[trigger] now[q] == r;
                assert(is_held(rs, now[q]));
                let i = choose|i: int|
                    0 <= i < rs.len() && same_recording(#[trigger] rs[i], now[q]);
                assert(rs[i].file_id == f.id);
            }
        }
    }
}

/// History is kept for whole days of twenty-four hours before now.
pub proof fn law_history_is_kept_for_days(now_ms: i64, retention_days: i64)
    ensures
        cutoff_at(now_ms, retention_days) == now_ms - retention_days * (24 * 60 * 60 * 1_000),
{
}

/// A full copy that stands for a revision holds the content, its digest and its size, rests on
/// nothing, and is otherwise the revision; its content is read from it whatever else there is.
pub proof fn law_full_copies_stand_for_their_revision(
    rs: Seq<RevisionView>,
    r: RevisionView,
    content: Seq<char>,
)
    ensures
        ({
            let copy = full_copy(r, content);
            &&& copy.storage_kind == StorageKind::Full
            &&& copy.base_revision_id is None
            &&& copy.content_hash == Some(sha256_hex(content))
            &&& copy.size_bytes == Some(byte_len(content) as i64)
            &&& copy.payload == Some(encode_utf8(content))
            &&& copy.id == r.id && copy.file_id == r.file_id && copy.ordinal == r.ordinal
            &&& copy.recorded_at_ms == r.recorded_at_ms && copy.event_type == r.event_type
            &&& r.event_type != EventType::Delete ==> content_of(rs, copy) == Ok::<
                Seq<char>,
                StoreError,
            >(content)
        }),
{
    encode_utf8_valid_utf8(content);
    encode_utf8_decode_utf8(content);
    let chain = seq![full_copy(r, content)];
    assert(chain.drop_first() =~= Seq::<RevisionView>::empty());
    assert(materialized(chain.drop_first()) is Ok);
}

} // verus!
