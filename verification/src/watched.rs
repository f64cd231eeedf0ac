//! What a watcher does about the paths that it sees change.
use vstd::prelude::*;

use crate::debounce::{
    is_pending,
    is_quiet,
    law_last_sight_counts,
    law_paths_are_ordered,
    no_path_twice,
    quiet_paths,
    same_key,
    seen,
    still_pending,
    Pending,
};
use crate::git::RuntimeView;
use crate::path::{parts_before, PathPart};
use crate::text::text_before;
use crate::watcher::{after_tick, all_seen, is_heartbeat_due, needs_rescan, ready_at, WatchState};

verus! {

/// Whether a path that was last seen at a time has to wait longer, at a time `now`.
pub open spec fn has_to_wait(p: Pending, now: u128, window: u128) -> bool {
    window > 0 && now < p.seen_at + window
}

/// Of the paths that are pending, those that have to wait stay pending, with the times at
/// which they were seen, and all others are handed out.
pub proof fn law_paths_wait_or_are_handed_out(ps: Seq<Pending>, now: u128, window: u128)
    ensures
        still_pending(ps, now, window) == ps.filter(|p: Pending| has_to_wait(p, now, window)),
        quiet_paths(ps, now, window) == ps.filter(
            |p: Pending| !has_to_wait(p, now, window),
        ).map_values(|p: Pending| p.path),
    decreases ps.len(),
{
    reveal(Seq::filter);
    let waits = |p: Pending| has_to_wait(p, now, window);
    let goes = |p: Pending| !has_to_wait(p, now, window);
    let path_of = |p: Pending| p.path;
    if ps.len() > 0 {
        law_paths_wait_or_are_handed_out(ps.drop_last(), now, window);
        assert(is_quiet(ps.last(), now, window) == goes(ps.last()));
        let before = ps.drop_last().filter(goes);
        assert(before.push(ps.last()).map_values(path_of) =~= before.map_values(path_of).push(
            ps.last().path,
        ));
    } else {
        assert(ps.filter(goes).map_values(path_of) =~= Seq::<Seq<char>>::empty());
    }
}

/// What a watcher hands out is every path that need not wait any longer, each as often as it
/// is pending.
pub proof fn law_ready_paths_are_those_that_waited(state: WatchState, now: u128)
    ensures
        ready_at(state, now).to_multiset() == state.pending.filter(
            |p: Pending| !has_to_wait(p, now, state.window),
        ).map_values(|p: Pending| p.path).to_multiset(),
{
    law_paths_wait_or_are_handed_out(state.pending, now, state.window);
    law_paths_are_ordered(quiet_paths(state.pending, now, state.window));
}

/// Seeing a path makes it wait from then on, and leaves every other path as it was.
pub proof fn law_seeing_a_path(ps: Seq<Pending>, path: Seq<char>, at: u128, other: Pending)
    requires
        no_path_twice(ps),
    ensures
        exists|i: int|
            0 <= i < seen(ps, path, at).len() && same_key(
                (#[trigger] seen(ps, path, at)[i]).path,
                path,
            ) && seen(ps, path, at)[i].seen_at == at,
        !same_key(other.path, path) ==> (seen(ps, path, at).contains(other) <==> ps.contains(
            other,
        )),
        seen(ps, path, at).contains(other) && same_key(other.path, path) ==> other.seen_at == at,
        seen(ps, path, at).len() == ps.len() + (if exists|i: int|
            0 <= i < ps.len() && same_key((#[trigger] ps[i]).path, path) {
            0int
        } else {
            1int
        }),
        no_path_twice(seen(ps, path, at)),
{
    law_last_sight_counts(ps, path, at);
    let after = seen(ps, path, at);
    if is_pending(ps, path) {
        let i = choose|i: int| 0 <= i < ps.len() && same_key((#[trigger] ps[i]).path, path);
        assert(same_key(after[i].path, path));
        if !same_key(other.path, path) {
            if ps.contains(other) {
                let j = choose|j: int| 0 <= j < ps.len() && ps[j] == other;
                assert(after[j] == other);
            }
            if after.contains(other) {
                let j = choose|j: int| 0 <= j < after.len() && after[j] == other;
                assert(same_key(ps[j].path, path) == same_key(after[j].path, path));
                assert(ps[j] == other);
            }
        }
    } else {
        assert(after.last() == Pending { path, seen_at: at });
        assert(same_key(after[ps.len() as int].path, path));
        if ps.contains(other) {
            let j = choose|j: int| 0 <= j < ps.len() && ps[j] == other;
            assert(after[j] == other);
        }
        if after.contains(other) && !same_key(other.path, path) {
            let j = choose|j: int| 0 <= j < after.len() && after[j] == other;
            assert(j < ps.len());
            assert(ps[j] == other);
        }
    }
}

/// Seeing several paths is seeing one after the other.
pub proof fn law_seeing_paths(
    ps: Seq<Pending>,
    paths: Seq<Seq<char>>,
    path: Seq<char>,
    at: u128,
)
    ensures
        all_seen(ps, Seq::empty(), at) == ps,
        all_seen(ps, paths.push(path), at) == seen(all_seen(ps, paths, at), path, at),
{
    assert(paths.push(path).drop_last() =~= paths);
}

/// A path that a watcher saw is handed out as soon as the window has passed since, and is
/// then no longer pending. Before that it is not handed out and stays pending.
pub proof fn law_seen_paths_are_handed_out_once(
    state: WatchState,
    path: Seq<char>,
    at: u128,
    next: RuntimeView,
    now: u128,
)
    requires
        no_path_twice(state.pending),
        state.window > 0,
    ensures
        ({
            let watching = WatchState { pending: seen(state.pending, path, at), ..state };
            let ready = ready_at(watching, now);
            let left = after_tick(watching, next, now).pending;
            let is_ready = exists|k: int|
                0 <= k < ready.len() && same_key(#[trigger] ready[k], path);
            let waits = exists|k: int|
                0 <= k < left.len() && same_key((#[trigger] left[k]).path, path)
                    && left[k].seen_at == at;
            let is_left = exists|k: int|
                0 <= k < left.len() && same_key((#[trigger] left[k]).path, path);
            if now >= at + state.window {
                is_ready && !is_left
            } else {
                waits && !is_ready
            }
        }),
{
    broadcast use vstd::seq_lib::group_to_multiset_ensures;

    let ps = seen(state.pending, path, at);
    let watching = WatchState { pending: ps, ..state };
    let ready = ready_at(watching, now);
    let left = after_tick(watching, next, now).pending;
    let waits = |p: Pending| has_to_wait(p, now, state.window);
    let goes = |p: Pending| !has_to_wait(p, now, state.window);
    let path_of = |p: Pending| p.path;
    law_seeing_a_path(state.pending, path, at, ps[0]);
    law_last_sight_counts(state.pending, path, at);
    law_paths_wait_or_are_handed_out(ps, now, state.window);
    law_ready_paths_are_those_that_waited(watching, now);
    let i = choose|i: int|
        0 <= i < ps.len() && same_key((#[trigger] ps[i]).path, path) && ps[i].seen_at == at;
    let out = ps.filter(goes).map_values(path_of);
    if now >= at + state.window {
        assert(goes(ps[i]));
        ps.lemma_filter_contains(goes, i);
        let k = choose|k: int| 0 <= k < ps.filter(goes).len() && ps.filter(goes)[k] == ps[i];
        assert(out[k] == ps[i].path);
        assert(out.contains(ps[i].path));
        assert(ready.to_multiset().count(ps[i].path) > 0);
        assert(ready.contains(ps[i].path));
        let r = choose|r: int| 0 <= r < ready.len() && ready[r] == ps[i].path;
        assert(same_key(ready[r], path));
        assert forall|k: int| 0 <= k < left.len() implies !same_key(
            (#[trigger] left[k]).path,
            path,
        ) by {
            ps.lemma_filter_pred(waits, k);
            ps.lemma_filter_contains_rev(waits, left[k]);
            let j = choose|j: int| 0 <= j < ps.len() && ps[j] == left[k];
            assert(waits(left[k]));
            assert(ps[j].seen_at == left[k].seen_at);
        }
    } else {
        assert(waits(ps[i]));
        ps.lemma_filter_contains(waits, i);
        let k = choose|k: int| 0 <= k < ps.filter(waits).len() && ps.filter(waits)[k] == ps[i];
        assert(same_key(left[k].path, path) && left[k].seen_at == at);
        assert forall|k: int| 0 <= k < ready.len() implies !same_key(#[trigger] ready[k], path) by {
            assert(ready.contains(ready[k]));
            assert(out.to_multiset().count(ready[k]) > 0);
            assert(out.contains(ready[k]));
            let q = choose|q: int| 0 <= q < out.len() && out[q] == ready[k];
            ps.lemma_filter_pred(goes, q);
            ps.lemma_filter_contains_rev(goes, ps.filter(goes)[q]);
            let j = choose|j: int| 0 <= j < ps.len() && ps[j] == ps.filter(goes)[q];
            assert(ps[j].path == ready[k]);
        }
    }
}

/// In the order in which paths are handed out, a directory stands before what lies in it, and
/// of two paths that part at a name the one with the lesser name stands first.
pub proof fn law_order_of_paths(
    shared: Seq<PathPart>,
    x: Seq<char>,
    y: Seq<char>,
    a: Seq<PathPart>,
    b: Seq<PathPart>,
)
    ensures
        x != y ==> (parts_before(
            shared.push(PathPart::Name(x)) + a,
            shared.push(PathPart::Name(y)) + b,
        ) <==> text_before(x, y)),
        parts_before(shared, shared + a) <==> a.len() > 0,
        !parts_before(shared + a, shared),
    decreases shared.len(),
{
    let left = shared.push(PathPart::Name(x)) + a;
    let right = shared.push(PathPart::Name(y)) + b;
    if shared.len() > 0 {
        let rest = shared.drop_first();
        law_order_of_paths(rest, x, y, a, b);
        assert(left.drop_first() =~= rest.push(PathPart::Name(x)) + a);
        assert(right.drop_first() =~= rest.push(PathPart::Name(y)) + b);
        assert((shared + a).drop_first() =~= rest + a);
    } else {
        assert(left[0] == PathPart::Name(x) && right[0] == PathPart::Name(y));
        assert(shared + a =~= a);
    }
}

/// A watcher looks at the whole project again exactly when the context that it finds has
/// another fingerprint than the one that it was in, and is then in that context. Otherwise
/// it stays in its own. Neither the window nor the last sign of life changes.
pub proof fn law_watchers_follow_the_context(state: WatchState, next: RuntimeView, now: u128)
    ensures
        needs_rescan(state, next) <==> state.context.fingerprint != next.fingerprint,
        after_tick(state, next, now).context.fingerprint == next.fingerprint,
        state.context.fingerprint != next.fingerprint ==> after_tick(state, next, now).context
            == next,
        state.context.fingerprint == next.fingerprint ==> after_tick(state, next, now).context
            == state.context,
        after_tick(state, next, now).window == state.window,
        after_tick(state, next, now).last_heartbeat == state.last_heartbeat,
{
}

/// A sign of life is due from two seconds after the last one on.
pub proof fn law_signs_of_life_are_due(state: WatchState, now: u128)
    ensures
        is_heartbeat_due(state, now) <==> now >= state.last_heartbeat + 2_000_000_000,
{
}

} // verus!
