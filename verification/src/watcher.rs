//! What a watcher decides while it runs. Times are nanoseconds on a clock that never goes
//! back.
use vstd::prelude::*;
use vstd::string::*;

use crate::config::WATCHER_HEARTBEAT_MS;
use crate::debounce::{
    in_path_order,
    is_quiet,
    law_last_sight_counts,
    law_paths_are_ordered,
    no_path_twice,
    quiet_paths,
    same_key,
    seen,
    still_pending,
    Debouncer,
    Pending,
};
use crate::git::{RuntimeContext, RuntimeView};
use crate::text::{same_text, texts};

verus! {

/// Nanoseconds in a millisecond.
pub const MS_NANOS: u128 = 1_000_000;

/// What a watcher knows while it runs.
pub struct WatchState {
    /// The context that changes are recorded in.
    pub context: RuntimeView,
    /// The paths that were seen and are not quiet yet.
    pub pending: Seq<Pending>,
    /// How long a path has to be quiet.
    pub window: u128,
    /// When the watcher last gave a sign of life.
    pub last_heartbeat: u128,
}

/// What is pending after several paths were seen at one time.
pub open spec fn all_seen(ps: Seq<Pending>, paths: Seq<Seq<char>>, at: u128) -> Seq<Pending>
    decreases paths.len(),
{
    if paths.len() == 0 {
        ps
    } else {
        seen(all_seen(ps, paths.drop_last(), at), paths.last(), at)
    }
}

/// Whether the project has to be scanned again, because it is in another context now.
pub open spec fn needs_rescan(state: WatchState, next: RuntimeView) -> bool {
    next.fingerprint != state.context.fingerprint
}

/// The paths whose changes are recorded at a time, in order.
pub open spec fn ready_at(state: WatchState, now: u128) -> Seq<Seq<char>> {
    in_path_order(quiet_paths(state.pending, now, state.window))
}

/// The state after the context was looked at and the ready paths were taken.
pub open spec fn after_tick(state: WatchState, next: RuntimeView, now: u128) -> WatchState {
    WatchState {
        context: if needs_rescan(state, next) {
            next
        } else {
            state.context
        },
        pending: still_pending(state.pending, now, state.window),
        ..state
    }
}

/// Whether a sign of life is due.
pub open spec fn is_heartbeat_due(state: WatchState, now: u128) -> bool {
    now - state.last_heartbeat >= WATCHER_HEARTBEAT_MS * MS_NANOS
}

/// What a watcher does next.
#[derive(Debug)]
pub struct Tick {
    /// The project is in another context and has to be scanned again.
    pub rescan: bool,
    /// The paths whose changes are to be recorded.
    pub ready: Vec<String>,
}

/// The running state of a watcher.
#[derive(Debug)]
pub struct WatchLoop {
    context: RuntimeContext,
    debouncer: Debouncer,
    last_heartbeat: u128,
}

impl View for WatchLoop {
    type V = WatchState;

    closed spec fn view(&self) -> WatchState {
        WatchState {
            context: self.context@,
            pending: self.debouncer.pending(),
            window: self.debouncer.window(),
            last_heartbeat: self.last_heartbeat,
        }
    }
}

impl WatchLoop {
    /// Whether no path is pending twice.
    pub open spec fn wf(&self) -> bool {
        no_path_twice(self@.pending)
    }

    /// A watcher that starts in a context.
    pub fn new(context: RuntimeContext, debounce_ms: u64, now: u128) -> (w: Self)
        ensures
            w.wf(),
            w@ == (WatchState {
                context: context@,
                pending: Seq::empty(),
                window: (debounce_ms * MS_NANOS) as u128,
                last_heartbeat: now,
            }),
    {
        let window: u128 = debounce_ms as u128 * MS_NANOS;
        WatchLoop { context, debouncer: Debouncer::new(window), last_heartbeat: now }
    }

    /// The context that changes are recorded in.
    pub fn context(&self) -> (c: &RuntimeContext)
        ensures
            c@ == self@.context,
    {
        &self.context
    }

    /// Notes that paths were seen.
    pub fn observe(&mut self, paths: Vec<String>, at: u128)
        requires
            old(self).wf(),
        ensures
            final(self).wf(),
            final(self)@ == (WatchState {
                pending: all_seen(old(self)@.pending, texts(paths@), at),
                ..old(self)@
            }),
    {
        let ghost before = self@.pending;
        let ghost all = texts(paths@);
        let mut i: usize = 0;
        assert(all.take(0) =~= Seq::<Seq<char>>::empty());
        while i < paths.len()
            invariant
                i <= paths@.len(),
                all == texts(paths@),
                before == old(self)@.pending,
                self.wf(),
                self@ == (WatchState {
                    pending: all_seen(before, all.take(i as int), at),
                    ..old(self)@
                }),
            decreases paths@.len() - i,
        {
            proof {
                assert(all.take(i + 1).drop_last() =~= all.take(i as int));
                assert(all[i as int] == paths@[i as int]@);
            }
            self.debouncer.record(paths[i].clone(), at);
            i += 1;
        }
        assert(all.take(i as int) =~= all);
    }

    /// Looks at the context that the project is in now, and takes the paths that have
    /// been quiet long enough.
    pub fn tick(&mut self, next: RuntimeContext, now: u128) -> (tick: Tick)
        requires
            old(self).wf(),
        ensures
            final(self).wf(),
            final(self)@ == after_tick(old(self)@, next@, now),
            tick.rescan == needs_rescan(old(self)@, next@),
            texts(tick.ready@) == ready_at(old(self)@, now),
    {
        let rescan = !same_text(next.fingerprint(), self.context.fingerprint());
        if rescan {
            self.context = next;
        }
        let ready = self.debouncer.drain_ready(now);
        Tick { rescan, ready }
    }

    /// Whether a sign of life is due.
    pub fn heartbeat_due(&self, now: u128) -> (due: bool)
        ensures
            due == is_heartbeat_due(self@, now),
    {
        now.saturating_sub(self.last_heartbeat) >= WATCHER_HEARTBEAT_MS as u128 * MS_NANOS
    }

    /// Notes that a sign of life was given.
    pub fn note_heartbeat(&mut self, now: u128)
        ensures
            final(self)@ == (WatchState { last_heartbeat: now, ..old(self)@ }),
    {
        self.last_heartbeat = now;
    }
}

/// Once a project was scanned in a context, it is not scanned again while it stays in it.
pub proof fn law_same_context_is_scanned_once(
    state: WatchState,
    next: RuntimeView,
    later: RuntimeView,
    now: u128,
)
    requires
        later.fingerprint == next.fingerprint,
    ensures
        !needs_rescan(after_tick(state, next, now), later),
{
}

proof fn lemma_taken_path_was_quiet(ps: Seq<Pending>, now: u128, window: u128, k: int) -> (i: int)
    requires
        0 <= k < quiet_paths(ps, now, window).len(),
    ensures
        0 <= i < ps.len(),
        ps[i].path == quiet_paths(ps, now, window)[k],
        is_quiet(ps[i], now, window),
    decreases ps.len(),
{
    let rest = ps.drop_last();
    if k < quiet_paths(rest, now, window).len() {
        let i = lemma_taken_path_was_quiet(rest, now, window, k);
        assert(rest[i] == ps[i]);
        i
    } else {
        ps.len() - 1
    }
}

/// A path that was just seen is not taken before it was quiet for the whole window.
pub proof fn law_seen_paths_wait(state: WatchState, path: Seq<char>, at: u128, now: u128)
    requires
        no_path_twice(state.pending),
        state.window > 0,
        now < at + state.window,
    ensures
        forall|k: int|
            #![trigger ready_at(
                (WatchState { pending: seen(state.pending, path, at), ..state }),
                now,
            )[k]]
            ({
                let ready = ready_at(
                    (WatchState { pending: seen(state.pending, path, at), ..state }),
                    now,
                );
                0 <= k < ready.len() ==> !same_key(ready[k], path)
            }),
{
    broadcast use vstd::seq_lib::group_to_multiset_ensures;

    let ps = seen(state.pending, path, at);
    let quiet = quiet_paths(ps, now, state.window);
    let ready = in_path_order(quiet);
    law_last_sight_counts(state.pending, path, at);
    law_paths_are_ordered(quiet);
    assert forall|k: int| 0 <= k < ready.len() implies !same_key(#[trigger] ready[k], path) by {
        assert(ready.contains(ready[k]));
        assert(ready.to_multiset().count(ready[k]) > 0);
        assert(quiet.contains(ready[k]));
        let q = choose|q: int| 0 <= q < quiet.len() && quiet[q] == ready[k];
        let i = lemma_taken_path_was_quiet(ps, now, state.window, q);
        assert(ps[i].path == ready[k]);
    }
}

/// Between two signs of life lies the full time between heartbeats.
pub proof fn law_heartbeats_are_spaced(state: WatchState, at: u128, now: u128)
    ensures
        is_heartbeat_due(WatchState { last_heartbeat: at, ..state }, now) ==> now >= at
            + 2_000_000_000,
{
}

} // verus!
