//! What a pruning leaves of a timeline whose clock never went back: every state from the
//! cutoff on.
use vstd::prelude::*;
use vstd::utf8::*;

use crate::store::in_turn::law_files_are_pruned_apart;
use crate::store::lookup::{
    chain_of,
    content_of,
    file_id_of,
    latest,
    latest_at,
    lemma_latest_at,
    lemma_latest_is,
    lemma_revision_at,
    materialized,
    newer,
    revision_of,
    state_at,
    step,
};
use crate::store::prune::{
    all_settled,
    base_stays_in_file,
    bases_stay_in_files,
    anchor_failure,
    full_copy,
    gone_until,
    is_anchor,
    lemma_survivor_origin,
    lemma_survivor_present,
    needs_full_copy,
    prune_failure,
    prune_outcome,
    pruned,
    settled,
    stays,
    survivors,
    unlinked_from,
};
use crate::store::record::{
    lemma_seen_keeps_numbers,
    with_context_seen,
    with_delete,
    with_file,
    with_text,
};
use crate::store::rows::{EventType, FileView, RevisionView, StorageKind};
use crate::store::sound::{
    lemma_chain_asked,
    lemma_no_revision_of_new_file,
    lemma_with_file_finds,
    reads_back,
    recorded_by,
    sound,
};
use crate::store::tables::{has_file, revision_ids_ascend, StoreError, Tables};

verus! {

/// Whether later revisions of a file were recorded at later times, or at the same.
pub open spec fn times_follow_numbers(rs: Seq<RevisionView>) -> bool {
    forall|i: int, j: int|
        0 <= i < rs.len() && 0 <= j < rs.len() && (#[trigger] rs[i]).file_id == (
        #[trigger] rs[j]).file_id && rs[i].id < rs[j].id ==> rs[i].recorded_at_ms
            <= rs[j].recorded_at_ms
}

/// Whether a revision rests on the one before it in its file.
pub open spec fn rests_on_previous(rs: Seq<RevisionView>, r: RevisionView) -> bool {
    &&& r.base_revision_id matches Some(b)
    &&& b < r.id
    &&& exists|j: int| 0 <= j < rs.len() && (#[trigger] rs[j]).id == b && rs[j].file_id == r.file_id
    &&& forall|k: int|
        0 <= k < rs.len() && (#[trigger] rs[k]).file_id == r.file_id && rs[k].id < r.id ==> rs[k].id
            <= b
}

/// Whether a timeline was written by a clock that never went back: times follow numbers,
/// what is not a full copy rests on the revision before it, and ends hold nothing.
pub open spec fn in_step(t: Tables) -> bool {
    &&& times_follow_numbers(t.revisions)
    &&& forall|i: int|
        0 <= i < t.revisions.len() && needs_full_copy(#[trigger] t.revisions[i])
            ==> rests_on_previous(t.revisions, t.revisions[i])
    &&& forall|i: int|
        0 <= i < t.revisions.len() && (#[trigger] t.revisions[i]).event_type == EventType::Delete
            ==> t.revisions[i].storage_kind == StorageKind::Absent
            && t.revisions[i].base_revision_id is None
}

/// In a timeline that is in step, every base stays in its file.
pub proof fn law_in_step_bases_stay_in_files(t: Tables)
    requires
        t.wf(),
        in_step(t),
    ensures
        bases_stay_in_files(t.revisions),
{
    assert forall|i: int| 0 <= i < t.revisions.len() implies base_stays_in_file(
        t.revisions,
        #[trigger] t.revisions[i],
    ) by {
        let r = t.revisions[i];
        if needs_full_copy(r) {
            assert(rests_on_previous(t.revisions, r));
            let b = r.base_revision_id->Some_0;
            let j = choose|j: int|
                0 <= j < t.revisions.len() && (#[trigger] t.revisions[j]).id == b
                    && t.revisions[j].file_id == r.file_id;
            lemma_revision_at(t.revisions, j);
        }
    }
}

// ---------------------------------------------------------------------------
// Keeping in step
// ---------------------------------------------------------------------------

proof fn lemma_in_step_push(t: Tables, n: RevisionView, v: Tables)
    requires
        t.wf(),
        in_step(t),
        v.revisions == t.revisions.push(n),
        n.id > t.last_revision_id,
        forall|i: int|
            0 <= i < t.revisions.len() && (#[trigger] t.revisions[i]).file_id == n.file_id
                ==> t.revisions[i].recorded_at_ms <= n.recorded_at_ms,
        needs_full_copy(n) ==> {
            &&& latest(t.revisions, n.file_id) is Some
            &&& n.base_revision_id == Some(latest(t.revisions, n.file_id)->Some_0.id)
        },
        n.event_type == EventType::Delete ==> n.storage_kind == StorageKind::Absent
            && n.base_revision_id is None,
    ensures
        in_step(v),
{
    let rs = t.revisions;
    let all = v.revisions;
    assert forall|i: int, j: int|
        0 <= i < all.len() && 0 <= j < all.len() && (#[trigger] all[i]).file_id == (
        #[trigger] all[j]).file_id && all[i].id < all[j].id implies all[i].recorded_at_ms
        <= all[j].recorded_at_ms by {
        if i < rs.len() && j < rs.len() {
            assert(all[i] == rs[i] && all[j] == rs[j]);
        } else if i < rs.len() {
            assert(all[i] == rs[i]);
        } else if j < rs.len() {
            assert(all[j] == rs[j]);
            assert(rs[j].id <= t.last_revision_id);
        }
    }
    assert forall|i: int| 0 <= i < all.len() && needs_full_copy(#[trigger] all[i]) implies
        rests_on_previous(all, all[i]) by {
        if i < rs.len() {
            assert(all[i] == rs[i]);
            assert(rests_on_previous(rs, rs[i]));
            let b = rs[i].base_revision_id->Some_0;
            let j = choose|j: int|
                0 <= j < rs.len() && (#[trigger] rs[j]).id == b && rs[j].file_id == rs[i].file_id;
            assert(all[j].id == b);
            assert(rs[i].id <= t.last_revision_id);
            assert forall|k: int|
                0 <= k < all.len() && (#[trigger] all[k]).file_id == rs[i].file_id && all[k].id
                    < rs[i].id implies all[k].id <= b by {
                if k < rs.len() {
                    assert(all[k] == rs[k]);
                }
            }
        } else {
            lemma_latest_at(rs, n.file_id, i64::MAX);
            let newest = latest(rs, n.file_id)->Some_0;
            let p = choose|p: int| 0 <= p < rs.len() && #[trigger] rs[p] == newest;
            assert(rs[p].id <= t.last_revision_id);
            assert(all[p].id == newest.id);
            assert forall|k: int|
                0 <= k < all.len() && (#[trigger] all[k]).file_id == n.file_id && all[k].id
                    < n.id implies all[k].id <= newest.id by {
                if k < rs.len() {
                    assert(all[k] == rs[k]);
                    assert(!newer(rs[k], newest));
                    if rs[k].id > rs[p].id {
                        assert(rs[p].recorded_at_ms <= rs[k].recorded_at_ms);
                    }
                }
            }
        }
    }
    assert forall|i: int|
        0 <= i < all.len() && (#[trigger] all[i]).event_type
            == EventType::Delete implies all[i].storage_kind == StorageKind::Absent
        && all[i].base_revision_id is None by {
        if i < rs.len() {
            assert(all[i] == rs[i]);
        }
    }
}

proof fn lemma_in_step_same(t: Tables, v: Tables)
    requires
        in_step(t),
        v.revisions == t.revisions,
    ensures
        in_step(v),
{
    assert forall|i: int| 0 <= i < v.revisions.len() && needs_full_copy(
        #[trigger] v.revisions[i],
    ) implies rests_on_previous(v.revisions, v.revisions[i]) by {
        assert(needs_full_copy(t.revisions[i]));
    }
    assert forall|i: int|
        0 <= i < v.revisions.len() && (#[trigger] v.revisions[i]).event_type
            == EventType::Delete implies v.revisions[i].storage_kind == StorageKind::Absent
        && v.revisions[i].base_revision_id is None by {
        assert(t.revisions[i].event_type == EventType::Delete);
    }
}

/// Recording a content, by a clock that did not go back, keeps a timeline in step.
pub proof fn law_text_keeps_in_step(
    t: Tables,
    path: Seq<char>,
    content: Seq<char>,
    recorded_at_ms: i64,
    context_id: i64,
    interval: i64,
)
    requires
        t.wf(),
        in_step(t),
        with_text(t, path, content, recorded_at_ms, context_id, interval) is Ok,
        recorded_by(t, path, context_id, recorded_at_ms),
    ensures
        in_step(with_text(t, path, content, recorded_at_ms, context_id, interval)->Ok_0.0),
{
    let seen = with_context_seen(t, context_id, recorded_at_ms);
    lemma_seen_keeps_numbers(t, context_id, recorded_at_ms);
    lemma_with_file_finds(seen, context_id, path, recorded_at_ms);
    let (u, file_id) = with_file(seen, context_id, path, recorded_at_ms)->Ok_0;
    let (v, added) = with_text(t, path, content, recorded_at_ms, context_id, interval)->Ok_0;
    if file_id_of(t.files, context_id, path) is None {
        lemma_no_revision_of_new_file(t, file_id, i64::MAX);
        lemma_latest_at(t.revisions, file_id, i64::MAX);
    }
    if added {
        lemma_in_step_push(t, v.revisions.last(), v);
    } else {
        lemma_in_step_same(t, v);
    }
}

/// Recording an end, by a clock that did not go back, keeps a timeline in step.
pub proof fn law_delete_keeps_in_step(
    t: Tables,
    path: Seq<char>,
    recorded_at_ms: i64,
    context_id: i64,
)
    requires
        t.wf(),
        in_step(t),
        with_delete(t, path, recorded_at_ms, context_id) is Ok,
        recorded_by(t, path, context_id, recorded_at_ms),
    ensures
        in_step(with_delete(t, path, recorded_at_ms, context_id)->Ok_0.0),
{
    let (w, added) = with_delete(t, path, recorded_at_ms, context_id)->Ok_0;
    if added {
        lemma_in_step_push(t, w.revisions.last(), w);
    } else {
        lemma_in_step_same(t, w);
    }
}

// ---------------------------------------------------------------------------
// Pruning
// ---------------------------------------------------------------------------

/// The numbers that a pruning removes.
pub open spec fn removed(rs: Seq<RevisionView>, cutoff_ms: i64) -> Set<i64> {
    gone_until(rs, cutoff_ms, rs.len() as int)
}

/// What a revision that stays becomes.
pub open spec fn remains(rs: Seq<RevisionView>, r: RevisionView, cutoff_ms: i64) -> RevisionView {
    unlinked_from(settled(rs, r, cutoff_ms), removed(rs, cutoff_ms))
}

proof fn lemma_removed(rs: Seq<RevisionView>, cutoff_ms: i64, at: int, last: i64)
    requires
        0 <= at < rs.len(),
        revision_ids_ascend(rs, last),
    ensures
        removed(rs, cutoff_ms).contains(rs[at].id) == !stays(rs, rs[at], cutoff_ms),
{
    let gone = removed(rs, cutoff_ms);
    if gone.contains(rs[at].id) {
        let i = choose|i: int|
            0 <= i < rs.len() && i < rs.len() && (#[trigger] rs[i]).id == rs[at].id && !stays(
                rs,
                rs[i],
                cutoff_ms,
            );
        if i < at {
            assert(rs[i].id < rs[at].id);
        } else if at < i {
            assert(rs[at].id < rs[i].id);
        }
    }
}

/// Exactly the revisions that stay remain: each becomes one of the rows after the
/// pruning, and each of those rows was one of them.
pub proof fn law_pruning_keeps_what_stays(t: Tables, cutoff_ms: i64)
    requires
        t.wf(),
    ensures
        forall|i: int|
            0 <= i < t.revisions.len() && stays(t.revisions, #[trigger] t.revisions[i], cutoff_ms)
                ==> pruned(t, cutoff_ms).revisions.contains(
                remains(t.revisions, t.revisions[i], cutoff_ms),
            ),
        forall|p: int|
            0 <= p < pruned(t, cutoff_ms).revisions.len() ==> exists|i: int|
                0 <= i < t.revisions.len() && stays(t.revisions, #[trigger] t.revisions[i], cutoff_ms)
                    && #[trigger] pruned(t, cutoff_ms).revisions[p] == remains(
                    t.revisions,
                    t.revisions[i],
                    cutoff_ms,
                ),
        pruned(t, cutoff_ms).files == t.files,
        pruned(t, cutoff_ms).contexts == t.contexts,
{
    let rs = t.revisions;
    let all = all_settled(rs, cutoff_ms);
    let gone = removed(rs, cutoff_ms);
    let kept = pruned(t, cutoff_ms).revisions;
    assert forall|i: int| 0 <= i < rs.len() && stays(rs, #[trigger] rs[i], cutoff_ms) implies
        kept.contains(remains(rs, rs[i], cutoff_ms)) by {
        lemma_kept_row(t, cutoff_ms, i);
    }
    assert forall|p: int| 0 <= p < kept.len() implies exists|i: int|
        0 <= i < rs.len() && stays(rs, #[trigger] rs[i], cutoff_ms) && #[trigger] kept[p]
            == remains(rs, rs[i], cutoff_ms) by {
        lemma_kept_origin(t, cutoff_ms, p);
        let i = choose|i: int|
            0 <= i < rs.len() && stays(rs, #[trigger] rs[i], cutoff_ms) && kept[p] == remains(
                rs,
                rs[i],
                cutoff_ms,
            );
        assert(kept[p] == remains(rs, rs[i], cutoff_ms));
    }
}

proof fn lemma_kept_row(t: Tables, cutoff_ms: i64, at: int)
    requires
        t.wf(),
        0 <= at < t.revisions.len(),
        stays(t.revisions, t.revisions[at], cutoff_ms),
    ensures
        exists|p: int|
            0 <= p < pruned(t, cutoff_ms).revisions.len() && #[trigger] pruned(
                t,
                cutoff_ms,
            ).revisions[p] == remains(t.revisions, t.revisions[at], cutoff_ms),
{
    let rs = t.revisions;
    let all = all_settled(rs, cutoff_ms);
    let gone = removed(rs, cutoff_ms);
    lemma_removed(rs, cutoff_ms, at, t.last_revision_id);
    assert(all[at] == settled(rs, rs[at], cutoff_ms));
    lemma_survivor_present(all, gone, at);
    let p = choose|p: int|
        0 <= p < survivors(all, gone).len() && #[trigger] survivors(all, gone)[p] == unlinked_from(
            all[at],
            gone,
        );
    assert(pruned(t, cutoff_ms).revisions[p] == remains(rs, rs[at], cutoff_ms));
}

proof fn lemma_kept_origin(t: Tables, cutoff_ms: i64, p: int)
    requires
        t.wf(),
        0 <= p < pruned(t, cutoff_ms).revisions.len(),
    ensures
        exists|i: int|
            0 <= i < t.revisions.len() && stays(t.revisions, #[trigger] t.revisions[i], cutoff_ms)
                && pruned(t, cutoff_ms).revisions[p] == remains(
                t.revisions,
                t.revisions[i],
                cutoff_ms,
            ),
{
    let rs = t.revisions;
    let all = all_settled(rs, cutoff_ms);
    let gone = removed(rs, cutoff_ms);
    lemma_survivor_origin(all, gone, p);
    let i = choose|i: int|
        0 <= i < all.len() && survivors(all, gone)[p] == unlinked_from(#[trigger] all[i], gone)
            && !gone.contains(all[i].id);
    assert(all[i] == settled(rs, rs[i], cutoff_ms));
    lemma_removed(rs, cutoff_ms, i, t.last_revision_id);
    assert(stays(rs, rs[i], cutoff_ms));
}

/// Numbers still ascend after a pruning.
pub proof fn lemma_survivors_ascend(rs: Seq<RevisionView>, gone: Set<i64>, last: i64)
    requires
        revision_ids_ascend(rs, last),
    ensures
        revision_ids_ascend(survivors(rs, gone), last),
        survivors(rs, gone).len() > 0 ==> rs.len() > 0 && survivors(rs, gone).last().id
            <= rs.last().id,
    decreases rs.len(),
{
    if rs.len() > 0 {
        let rest = rs.drop_last();
        assert(revision_ids_ascend(rest, last)) by {
            assert forall|i: int| 0 <= i < rest.len() implies (#[trigger] rest[i]).id
                <= last by {
                assert(rest[i] == rs[i]);
            }
            assert forall|i: int, j: int| 0 <= i < j < rest.len() implies (#[trigger] rest[i]).id
                < (#[trigger] rest[j]).id by {
                assert(rest[i] == rs[i] && rest[j] == rs[j]);
            }
        }
        lemma_survivors_ascend(rest, gone, last);
        let before = survivors(rest, gone);
        let whole = survivors(rs, gone);
        assert(rs[rs.len() - 1] == rs.last());
        if rest.len() > 0 {
            assert(rest.last() == rs[rs.len() - 2]);
            assert(rs[rs.len() - 2].id < rs[rs.len() - 1].id);
        }
        if !gone.contains(rs.last().id) {
            assert(whole == before.push(unlinked_from(rs.last(), gone)));
            assert forall|i: int, j: int| 0 <= i < j < whole.len() implies (#[trigger] whole[i]).id
                < (#[trigger] whole[j]).id by {
                if j < before.len() {
                    assert(whole[i] == before[i] && whole[j] == before[j]);
                } else {
                    assert(whole[i] == before[i]);
                    if i < before.len() - 1 {
                        assert(before[i].id < before[before.len() - 1].id);
                    }
                }
            }
            assert forall|i: int| 0 <= i < whole.len() implies (#[trigger] whole[i]).id
                <= last by {
                if i < before.len() {
                    assert(whole[i] == before[i]);
                }
            }
        }
    }
}

/// The numbers of what a pruning leaves ascend.
pub proof fn lemma_pruned_ascends(t: Tables, cutoff_ms: i64)
    requires
        t.wf(),
    ensures
        revision_ids_ascend(pruned(t, cutoff_ms).revisions, t.last_revision_id),
{
    let rs = t.revisions;
    let all = all_settled(rs, cutoff_ms);
    assert(forall|i: int| 0 <= i < all.len() ==> (#[trigger] all[i]).id == rs[i].id);
    assert(revision_ids_ascend(all, t.last_revision_id));
    lemma_survivors_ascend(all, removed(rs, cutoff_ms), t.last_revision_id);
}

/// The row of a revision that stays is found under its number.
proof fn lemma_kept_is_found(t: Tables, cutoff_ms: i64, at: int)
    requires
        t.wf(),
        0 <= at < t.revisions.len(),
        stays(t.revisions, t.revisions[at], cutoff_ms),
    ensures
        revision_of(pruned(t, cutoff_ms).revisions, t.revisions[at].id) == Some(
            remains(t.revisions, t.revisions[at], cutoff_ms),
        ),
{
    lemma_kept_row(t, cutoff_ms, at);
    lemma_pruned_ascends(t, cutoff_ms);
    let kept = pruned(t, cutoff_ms).revisions;
    let p = choose|p: int|
        0 <= p < kept.len() && #[trigger] kept[p] == remains(
            t.revisions,
            t.revisions[at],
            cutoff_ms,
        );
    lemma_revision_at(kept, p);
}

/// The revision before one that stays, on which it rests, stays too.
proof fn lemma_previous_stays(t: Tables, cutoff_ms: i64, at: int, base: int)
    requires
        t.wf(),
        in_step(t),
        0 <= at < t.revisions.len(),
        0 <= base < t.revisions.len(),
        t.revisions[at].recorded_at_ms > cutoff_ms,
        rests_on_previous(t.revisions, t.revisions[at]),
        t.revisions[at].base_revision_id == Some(t.revisions[base].id),
        t.revisions[base].file_id == t.revisions[at].file_id,
    ensures
        stays(t.revisions, t.revisions[base], cutoff_ms),
{
    let rs = t.revisions;
    let r = rs[at];
    let b = rs[base];
    if b.recorded_at_ms <= cutoff_ms {
        assert forall|i: int|
            0 <= i < rs.len() && (#[trigger] rs[i]).file_id == b.file_id && rs[i].recorded_at_ms
                <= cutoff_ms implies !newer(rs[i], b) by {
            if rs[i].id < r.id {
                assert(rs[i].id <= b.id);
                if rs[i].id < b.id {
                    assert(rs[i].recorded_at_ms <= rs[base].recorded_at_ms);
                } else {
                    assert(rs[i].id == rs[base].id);
                    if i < base {
                        assert(rs[i].id < rs[base].id);
                    } else if base < i {
                        assert(rs[base].id < rs[i].id);
                    }
                }
            } else if rs[i].id == r.id {
                if i < at {
                    assert(rs[i].id < rs[at].id);
                } else if at < i {
                    assert(rs[at].id < rs[i].id);
                }
            } else {
                assert(rs[at].recorded_at_ms <= rs[i].recorded_at_ms);
            }
        }
        lemma_latest_is(rs, b.file_id, cutoff_ms, base);
    }
}

/// Where a timeline is in step, numbers from that of a revision on may count as passed.
proof fn lemma_chain_falls(t: Tables, at: int, asked: i64, p: Set<i64>, q: Set<i64>)
    requires
        t.wf(),
        in_step(t),
        0 <= at < t.revisions.len(),
        forall|id: i64| #[trigger] p.contains(id) ==> id >= t.revisions[at].id,
        forall|id: i64| #[trigger] q.contains(id) ==> id >= t.revisions[at].id,
    ensures
        chain_of(t.revisions, t.revisions[at], asked, p) == chain_of(
            t.revisions,
            t.revisions[at],
            asked,
            q,
        ),
    decreases at,
{
    let rs = t.revisions;
    let r = rs[at];
    if r.event_type != EventType::Delete && r.storage_kind != StorageKind::Full {
        assert(needs_full_copy(rs[at]));
        assert(rests_on_previous(rs, rs[at]));
        let b = r.base_revision_id->Some_0;
        let j = choose|j: int|
            0 <= j < rs.len() && (#[trigger] rs[j]).id == b && rs[j].file_id == r.file_id;
        lemma_revision_at(rs, j);
        if at < j {
            assert(rs[at].id < rs[j].id);
        }
        lemma_chain_falls(t, j, asked, p.insert(b), q.insert(b));
    }
}

/// What a revision gives, after the numbers that were passed on the way to it.
pub open spec fn outcome(rs: Seq<RevisionView>, r: RevisionView, asked: i64, passed: Set<i64>) -> Result<
    Seq<char>,
    StoreError,
> {
    match chain_of(rs, r, asked, passed) {
        Ok(chain) => materialized(chain),
        Err(e) => Err(e),
    }
}

/// What a revision gives that rests on another, which was not passed.
pub proof fn lemma_outcome_step(
    rs: Seq<RevisionView>,
    r: RevisionView,
    asked: i64,
    passed: Set<i64>,
)
    requires
        r.storage_kind != StorageKind::Full,
        r.base_revision_id is Some,
        revision_of(rs, r.base_revision_id->Some_0) is Some,
        !passed.contains(r.base_revision_id->Some_0),
    ensures
        ({
            let b = r.base_revision_id->Some_0;
            outcome(rs, r, asked, passed) == (match outcome(
                rs,
                revision_of(rs, b)->Some_0,
                asked,
                passed.insert(b),
            ) {
                Ok(before) => step(r, before),
                Err(e) => Err(e),
            })
        }),
{
    let b = r.base_revision_id->Some_0;
    let base = revision_of(rs, b)->Some_0;
    if chain_of(rs, base, asked, passed.insert(b)) is Ok {
        let rest = chain_of(rs, base, asked, passed.insert(b))->Ok_0;
        assert((seq![r] + rest).drop_first() =~= rest);
        assert((seq![r] + rest)[0] == r);
    }
}

/// Where a pruning succeeds, the anchor of every file gives a content if it holds one.
proof fn lemma_anchor_reads(
    fs: Seq<FileView>,
    rs: Seq<RevisionView>,
    cutoff_ms: i64,
    at: int,
)
    requires
        0 <= at < fs.len(),
        prune_failure(fs, rs, cutoff_ms) is None,
    ensures
        anchor_failure(rs, fs[at].id, cutoff_ms) is None,
    decreases fs.len(),
{
    if at < fs.len() - 1 {
        assert(fs.drop_last()[at] == fs[at]);
        lemma_anchor_reads(fs.drop_last(), rs, cutoff_ms, at);
    }
}

/// A revision that stays gives after a pruning what it gave before it.
proof fn lemma_content_remains(t: Tables, cutoff_ms: i64, at: int, asked: i64, passed: Set<i64>)
    requires
        t.wf(),
        in_step(t),
        prune_failure(t.files, t.revisions, cutoff_ms) is None,
        0 <= at < t.revisions.len(),
        stays(t.revisions, t.revisions[at], cutoff_ms),
        forall|id: i64| #[trigger] passed.contains(id) ==> id >= t.revisions[at].id,
    ensures
        outcome(
            pruned(t, cutoff_ms).revisions,
            remains(t.revisions, t.revisions[at], cutoff_ms),
            asked,
            passed,
        ) == outcome(t.revisions, t.revisions[at], asked, passed),
    decreases at,
{
    let rs = t.revisions;
    let us = pruned(t, cutoff_ms).revisions;
    let r = rs[at];
    let row = remains(rs, r, cutoff_ms);
    if r.event_type == EventType::Delete {
        assert(r.storage_kind == StorageKind::Absent && r.base_revision_id is None);
        assert(row == r);
    } else if r.storage_kind == StorageKind::Full {
        assert(row.storage_kind == StorageKind::Full && row.payload == r.payload && row.id == r.id);
        lemma_one_full(us, row, asked, passed);
        lemma_one_full(rs, r, asked, passed);
    } else if is_anchor(rs, r, cutoff_ms) {
        let f = choose|f: int| 0 <= f < t.files.len() && (#[trigger] t.files[f]).id == r.file_id;
        assert(has_file(t.files, rs[at].file_id));
        lemma_anchor_reads(t.files, rs, cutoff_ms, f);
        let content = content_of(rs, r)->Ok_0;
        lemma_chain_asked(rs, r, r.id, asked, set![r.id]);
        lemma_chain_falls(t, at, asked, set![r.id], passed);
        assert(row == full_copy(r, content));
        encode_utf8_valid_utf8(content);
        encode_utf8_decode_utf8(content);
        lemma_one_full(us, row, asked, passed);
    } else {
        assert(needs_full_copy(rs[at]));
        assert(rests_on_previous(rs, rs[at]));
        let b = r.base_revision_id->Some_0;
        let j = choose|j: int|
            0 <= j < rs.len() && (#[trigger] rs[j]).id == b && rs[j].file_id == r.file_id;
        lemma_revision_at(rs, j);
        lemma_previous_stays(t, cutoff_ms, at, j);
        lemma_removed(rs, cutoff_ms, j, t.last_revision_id);
        assert(row == r);
        if at < j {
            assert(rs[at].id < rs[j].id);
        }
        lemma_content_remains(t, cutoff_ms, j, asked, passed.insert(b));
        lemma_kept_is_found(t, cutoff_ms, j);
        lemma_outcome_step(rs, r, asked, passed);
        lemma_outcome_step(us, row, asked, passed);
    }
}

/// The chain of a full copy is that copy alone.
pub proof fn lemma_one_full(
    rs: Seq<RevisionView>,
    r: RevisionView,
    asked: i64,
    passed: Set<i64>,
)
    requires
        r.storage_kind == StorageKind::Full,
    ensures
        chain_of(rs, r, asked, passed) == Ok::<Seq<RevisionView>, StoreError>(seq![r]),
        materialized(seq![r]) == step(r, Seq::empty()),
{
    let one = seq![r];
    assert(one.drop_first() =~= Seq::<RevisionView>::empty());
    assert(materialized(one.drop_first()) == Ok::<Seq<char>, StoreError>(Seq::<char>::empty()));
}

proof fn lemma_no_prune_failure(
    fs: Seq<FileView>,
    t: Tables,
    cutoff_ms: i64,
)
    requires
        t.wf(),
        sound(t),
    ensures
        prune_failure(fs, t.revisions, cutoff_ms) is None,
    decreases fs.len(),
{
    if fs.len() > 0 {
        lemma_no_prune_failure(fs.drop_last(), t, cutoff_ms);
        let rs = t.revisions;
        let f = fs.last().id;
        lemma_latest_at(rs, f, cutoff_ms);
        if latest_at(rs, f, cutoff_ms) is Some {
            let r = latest_at(rs, f, cutoff_ms)->Some_0;
            let i = choose|i: int| 0 <= i < rs.len() && #[trigger] rs[i] == r;
            if needs_full_copy(r) {
                assert(reads_back(rs, rs[i]));
            }
        }
    }
}

/// What all files pruned at once leave of a state from the cutoff on.
proof fn lemma_pruned_keeps_states(
    t: Tables,
    cutoff_ms: i64,
    path: Seq<char>,
    at_ms: i64,
    context_id: i64,
)
    requires
        t.wf(),
        in_step(t),
        prune_failure(t.files, t.revisions, cutoff_ms) is None,
        at_ms >= cutoff_ms,
    ensures
        state_at(pruned(t, cutoff_ms), path, at_ms, context_id) == state_at(
            t,
            path,
            at_ms,
            context_id,
        ),
{
    let rs = t.revisions;
    let u = pruned(t, cutoff_ms);
    let us = u.revisions;
    if file_id_of(t.files, context_id, path) is Some {
        let f = file_id_of(t.files, context_id, path)->Some_0;
        lemma_latest_at(rs, f, at_ms);
        lemma_latest_at(us, f, at_ms);
        lemma_pruned_ascends(t, cutoff_ms);
        match latest_at(rs, f, at_ms) {
            None => {
                if latest_at(us, f, at_ms) is Some {
                    let x = latest_at(us, f, at_ms)->Some_0;
                    let p = choose|p: int| 0 <= p < us.len() && #[trigger] us[p] == x;
                    lemma_kept_origin(t, cutoff_ms, p);
                    let i = choose|i: int|
                        0 <= i < rs.len() && stays(rs, #[trigger] rs[i], cutoff_ms) && us[p]
                            == remains(rs, rs[i], cutoff_ms);
                    assert(rs[i].file_id == f);
                }
            },
            Some(r) => {
                let i = choose|i: int| 0 <= i < rs.len() && #[trigger] rs[i] == r;
                if r.recorded_at_ms <= cutoff_ms {
                    assert forall|k: int|
                        0 <= k < rs.len() && (#[trigger] rs[k]).file_id == f
                            && rs[k].recorded_at_ms <= cutoff_ms implies !newer(rs[k], rs[i]) by {
                        assert(rs[k].recorded_at_ms <= at_ms);
                    }
                    lemma_latest_is(rs, f, cutoff_ms, i);
                }
                assert(stays(rs, rs[i], cutoff_ms));
                lemma_kept_row(t, cutoff_ms, i);
                let row = remains(rs, r, cutoff_ms);
                let p = choose|p: int| 0 <= p < us.len() && #[trigger] us[p] == row;
                assert forall|q: int|
                    0 <= q < us.len() && (#[trigger] us[q]).file_id == f && us[q].recorded_at_ms
                        <= at_ms implies !newer(us[q], us[p]) by {
                    lemma_kept_origin(t, cutoff_ms, q);
                    let k = choose|k: int|
                        0 <= k < rs.len() && stays(rs, #[trigger] rs[k], cutoff_ms) && us[q]
                            == remains(rs, rs[k], cutoff_ms);
                    assert(!newer(rs[k], r));
                }
                lemma_latest_is(us, f, at_ms, p);
                if r.event_type != EventType::Delete {
                    lemma_content_remains(t, cutoff_ms, i, r.id, set![r.id]);
                }
            },
        }
    }
}

/// A pruning that succeeds leaves every state from the cutoff on, of every file in every
/// context, where the clock never went back. What could not be read before it cannot be
/// read after it, for the same reason.
pub proof fn law_pruning_keeps_states(
    t: Tables,
    cutoff_ms: i64,
    path: Seq<char>,
    at_ms: i64,
    context_id: i64,
)
    requires
        t.wf(),
        in_step(t),
        prune_outcome(t, cutoff_ms) is Ok,
        at_ms >= cutoff_ms,
    ensures
        state_at(prune_outcome(t, cutoff_ms)->Ok_0.0, path, at_ms, context_id) == state_at(
            t,
            path,
            at_ms,
            context_id,
        ),
{
    law_in_step_bases_stay_in_files(t);
    law_files_are_pruned_apart(t, cutoff_ms);
    lemma_pruned_keeps_states(t, cutoff_ms, path, at_ms, context_id);
}

/// A pruning of a sound timeline does not fail, where every base stays in its file.
pub proof fn law_pruning_does_not_fail(t: Tables, cutoff_ms: i64)
    requires
        t.wf(),
        sound(t),
        bases_stay_in_files(t.revisions),
    ensures
        prune_outcome(t, cutoff_ms) is Ok,
{
    lemma_no_prune_failure(t.files, t, cutoff_ms);
    law_files_are_pruned_apart(t, cutoff_ms);
}

/// A pruning keeps a timeline sound and in step.
pub proof fn law_pruning_keeps_sound(t: Tables, cutoff_ms: i64)
    requires
        t.wf(),
        sound(t),
        in_step(t),
    ensures
        prune_outcome(t, cutoff_ms) is Ok,
        sound(prune_outcome(t, cutoff_ms)->Ok_0.0),
        in_step(prune_outcome(t, cutoff_ms)->Ok_0.0),
{
    law_in_step_bases_stay_in_files(t);
    law_pruning_does_not_fail(t, cutoff_ms);
    law_files_are_pruned_apart(t, cutoff_ms);
    lemma_pruned_keeps_sound(t, cutoff_ms);
}

#[verifier::rlimit(40)]
#[verifier::spinoff_prover]
proof fn lemma_pruned_keeps_sound(t: Tables, cutoff_ms: i64)
    requires
        t.wf(),
        sound(t),
        in_step(t),
    ensures
        sound(pruned(t, cutoff_ms)),
        in_step(pruned(t, cutoff_ms)),
{
    let rs = t.revisions;
    let u = pruned(t, cutoff_ms);
    let us = u.revisions;
    lemma_no_prune_failure(t.files, t, cutoff_ms);
    assert forall|p: int|
        0 <= p < us.len() && (#[trigger] us[p]).event_type
            != EventType::Delete implies reads_back(us, us[p]) by {
        lemma_kept_origin(t, cutoff_ms, p);
        let i = choose|i: int|
            0 <= i < rs.len() && stays(rs, #[trigger] rs[i], cutoff_ms) && us[p] == remains(
                rs,
                rs[i],
                cutoff_ms,
            );
        assert(reads_back(rs, rs[i]));
        lemma_content_remains(t, cutoff_ms, i, rs[i].id, set![rs[i].id]);
    }
    assert forall|p: int, q: int|
        0 <= p < us.len() && 0 <= q < us.len() && (#[trigger] us[p]).file_id == (
        #[trigger] us[q]).file_id && us[p].id < us[q].id implies us[p].recorded_at_ms
        <= us[q].recorded_at_ms by {
        lemma_kept_origin(t, cutoff_ms, p);
        lemma_kept_origin(t, cutoff_ms, q);
        let i = choose|i: int|
            0 <= i < rs.len() && stays(rs, #[trigger] rs[i], cutoff_ms) && us[p] == remains(
                rs,
                rs[i],
                cutoff_ms,
            );
        let j = choose|j: int|
            0 <= j < rs.len() && stays(rs, #[trigger] rs[j], cutoff_ms) && us[q] == remains(
                rs,
                rs[j],
                cutoff_ms,
            );
        assert(rs[i].id < rs[j].id);
    }
    assert forall|p: int| 0 <= p < us.len() && needs_full_copy(#[trigger] us[p]) implies
        rests_on_previous(us, us[p]) by {
        lemma_kept_origin(t, cutoff_ms, p);
        let i = choose|i: int|
            0 <= i < rs.len() && stays(rs, #[trigger] rs[i], cutoff_ms) && us[p] == remains(
                rs,
                rs[i],
                cutoff_ms,
            );
        assert(needs_full_copy(rs[i]));
        assert(rests_on_previous(rs, rs[i]));
        let b = rs[i].base_revision_id->Some_0;
        let j = choose|j: int|
            0 <= j < rs.len() && (#[trigger] rs[j]).id == b && rs[j].file_id == rs[i].file_id;
        lemma_previous_stays(t, cutoff_ms, i, j);
        lemma_removed(rs, cutoff_ms, j, t.last_revision_id);
        lemma_kept_row(t, cutoff_ms, j);
        let q = choose|q: int|
            0 <= q < us.len() && #[trigger] us[q] == remains(rs, rs[j], cutoff_ms);
        assert(us[q].id == b);
        assert forall|k: int|
            0 <= k < us.len() && (#[trigger] us[k]).file_id == us[p].file_id && us[k].id
                < us[p].id implies us[k].id <= b by {
            lemma_kept_origin(t, cutoff_ms, k);
            let m = choose|m: int|
                0 <= m < rs.len() && stays(rs, #[trigger] rs[m], cutoff_ms) && us[k] == remains(
                    rs,
                    rs[m],
                    cutoff_ms,
                );
            assert(rs[m].id < rs[i].id);
        }
    }
    assert forall|p: int|
        0 <= p < us.len() && (#[trigger] us[p]).event_type
            == EventType::Delete implies us[p].storage_kind == StorageKind::Absent
        && us[p].base_revision_id is None by {
        lemma_kept_origin(t, cutoff_ms, p);
        let i = choose|i: int|
            0 <= i < rs.len() && stays(rs, #[trigger] rs[i], cutoff_ms) && us[p] == remains(
                rs,
                rs[i],
                cutoff_ms,
            );
        assert(rs[i].event_type == EventType::Delete);
    }
}

} // verus!
