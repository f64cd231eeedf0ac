//! Waiting until a path has been quiet for a while. Times are nanoseconds on a clock that
//! never goes back.
use vstd::prelude::*;
use vstd::string::*;

use crate::path::{
    lemma_parts_before_total,
    lemma_parts_before_transitive,
    parts,
    parts_before,
    path_is_before,
    same_path,
};
use crate::text::texts;

verus! {

/// A path that was seen, and when it was seen last.
#[derive(Debug)]
struct PendingPath {
    path: String,
    seen_at: u128,
}

/// The view of a pending path.
pub struct Pending {
    pub path: Seq<char>,
    pub seen_at: u128,
}

impl View for PendingPath {
    type V = Pending;

    closed spec fn view(&self) -> Pending {
        Pending { path: self.path@, seen_at: self.seen_at }
    }
}

spec fn pending_views(v: Seq<PendingPath>) -> Seq<Pending> {
    v.map_values(|p: PendingPath| p@)
}

/// Whether two texts name the same path.
pub open spec fn same_key(a: Seq<char>, b: Seq<char>) -> bool {
    parts(a) == parts(b)
}

/// Whether no path is pending twice.
pub open spec fn no_path_twice(ps: Seq<Pending>) -> bool {
    forall|i: int, j: int|
        0 <= i < j < ps.len() ==> !same_key((#[trigger] ps[i]).path, (#[trigger] ps[j]).path)
}

/// Whether a path is pending.
pub open spec fn is_pending(ps: Seq<Pending>, path: Seq<char>) -> bool {
    exists|i: int| 0 <= i < ps.len() && same_key((#[trigger] ps[i]).path, path)
}

/// What is pending after a path was seen: a path that is pending already gets the new
/// time.
pub open spec fn seen(ps: Seq<Pending>, path: Seq<char>, seen_at: u128) -> Seq<Pending> {
    if is_pending(ps, path) {
        ps.map_values(
            |p: Pending|
                if same_key(p.path, path) {
                    Pending { seen_at, ..p }
                } else {
                    p
                },
        )
    } else {
        ps.push(Pending { path, seen_at })
    }
}

/// Whether a path has been quiet for the window at a time.
pub open spec fn is_quiet(p: Pending, now: u128, window: u128) -> bool {
    (if now >= p.seen_at {
        now - p.seen_at
    } else {
        0
    }) >= window
}

/// The paths that have been quiet for the window.
pub open spec fn quiet_paths(ps: Seq<Pending>, now: u128, window: u128) -> Seq<Seq<char>>
    decreases ps.len(),
{
    if ps.len() == 0 {
        Seq::empty()
    } else if is_quiet(ps.last(), now, window) {
        quiet_paths(ps.drop_last(), now, window).push(ps.last().path)
    } else {
        quiet_paths(ps.drop_last(), now, window)
    }
}

/// What is pending after the quiet paths were taken.
pub open spec fn still_pending(ps: Seq<Pending>, now: u128, window: u128) -> Seq<Pending>
    decreases ps.len(),
{
    if ps.len() == 0 {
        Seq::empty()
    } else if is_quiet(ps.last(), now, window) {
        still_pending(ps.drop_last(), now, window)
    } else {
        still_pending(ps.drop_last(), now, window).push(ps.last())
    }
}

/// Paths in order, with one more put in its place.
pub open spec fn path_placed(sorted: Seq<Seq<char>>, path: Seq<char>) -> Seq<Seq<char>>
    decreases sorted.len(),
{
    if sorted.len() > 0 && parts_before(parts(path), parts(sorted.last())) {
        path_placed(sorted.drop_last(), path).push(sorted.last())
    } else {
        sorted.push(path)
    }
}

/// Paths in order, part by part.
pub open spec fn in_path_order(paths: Seq<Seq<char>>) -> Seq<Seq<char>>
    decreases paths.len(),
{
    if paths.len() == 0 {
        Seq::empty()
    } else {
        path_placed(in_path_order(paths.drop_last()), paths.last())
    }
}

/// Collects paths that were seen, and hands each out once it has been quiet for a
/// window of time.
#[derive(Debug)]
pub struct Debouncer {
    window: u128,
    pending: Vec<PendingPath>,
}

impl Debouncer {
    /// The paths that are pending.
    pub closed spec fn pending(&self) -> Seq<Pending> {
        pending_views(self.pending@)
    }

    /// How long a path has to be quiet.
    pub closed spec fn window(&self) -> u128 {
        self.window
    }

    /// Whether no path is pending twice.
    pub open spec fn wf(&self) -> bool {
        no_path_twice(self.pending())
    }

    /// A debouncer with nothing pending.
    pub fn new(window: u128) -> (d: Self)
        ensures
            d.wf(),
            d.window() == window,
            d.pending() == Seq::<Pending>::empty(),
    {
        let d = Debouncer { window, pending: Vec::new() };
        assert(d.pending() =~= Seq::<Pending>::empty());
        d
    }

    /// Notes that a path was seen.
    pub fn record(&mut self, path: String, seen_at: u128)
        requires
            old(self).wf(),
        ensures
            final(self).wf(),
            final(self).window() == old(self).window(),
            final(self).pending() == seen(old(self).pending(), path@, seen_at),
    {
        let ghost before = self.pending();
        let mut i: usize = 0;
        while i < self.pending.len()
            invariant
                i <= self.pending@.len(),
                self.pending() == before,
                self.window == old(self).window,
                before == old(self).pending(),
                no_path_twice(before),
                forall|j: int| 0 <= j < i ==> !same_key((#[trigger] before[j]).path, path@),
            decreases self.pending@.len() - i,
        {
            assert(before[i as int] == self.pending@[i as int]@);
            if same_path(self.pending[i].path.as_str(), path.as_str()) {
                let kept = self.pending[i].path.clone();
                self.pending.set(i, PendingPath { path: kept, seen_at });
                proof {
                    let after = self.pending();
                    assert(is_pending(before, path@));
                    assert forall|j: int| 0 <= j < before.len() implies #[trigger] after[j] == (
                    if same_key(before[j].path, path@) {
                        Pending { seen_at, ..before[j] }
                    } else {
                        before[j]
                    }) by {
                        if j < i {
                            assert(!same_key(before[j].path, before[i as int].path));
                        } else if i < j {
                            assert(!same_key(before[i as int].path, before[j].path));
                        }
                    }
                    assert(after =~= seen(before, path@, seen_at));
                    assert forall|a: int, b: int| 0 <= a < b < after.len() implies !same_key(
                        (#[trigger] after[a]).path,
                        (#[trigger] after[b]).path,
                    ) by {
                        assert(!same_key(before[a].path, before[b].path));
                    }
                }
                return ;
            }
            i += 1;
        }
        let ghost text = path@;
        self.pending.push(PendingPath { path, seen_at });
        proof {
            let after = self.pending();
            assert(after =~= before.push(Pending { path: text, seen_at }));
            assert(!is_pending(before, text));
            assert forall|a: int, b: int| 0 <= a < b < after.len() implies !same_key(
                (#[trigger] after[a]).path,
                (#[trigger] after[b]).path,
            ) by {
                if b < before.len() {
                    assert(!same_key(before[a].path, before[b].path));
                } else {
                    assert(!same_key(before[a].path, text));
                }
            }
        }
    }

    /// Takes the paths that have been quiet for the window, in order.
    pub fn drain_ready(&mut self, now: u128) -> (ready: Vec<String>)
        requires
            old(self).wf(),
        ensures
            final(self).wf(),
            final(self).window() == old(self).window(),
            texts(ready@) == in_path_order(
                quiet_paths(old(self).pending(), now, old(self).window()),
            ),
            final(self).pending() == still_pending(old(self).pending(), now, old(self).window()),
    {
        let ghost before = self.pending();
        let ghost window = self.window;
        let mut old_pending: Vec<PendingPath> = Vec::new();
        std::mem::swap(&mut old_pending, &mut self.pending);
        let mut ready: Vec<String> = Vec::new();
        let mut left: Vec<PendingPath> = Vec::new();
        let mut i: usize = 0;
        assert(texts(ready@) =~= in_path_order(quiet_paths(before.take(0), now, window)));
        assert(pending_views(left@) =~= still_pending(before.take(0), now, window));
        while i < old_pending.len()
            invariant
                i <= old_pending@.len(),
                before == pending_views(old_pending@),
                window == self.window,
                self.window == old(self).window,
                texts(ready@) == in_path_order(quiet_paths(before.take(i as int), now, window)),
                pending_views(left@) == still_pending(before.take(i as int), now, window),
            decreases old_pending@.len() - i,
        {
            let ghost done = before.take(i + 1);
            let ghost left_before = pending_views(left@);
            proof {
                assert(done.drop_last() =~= before.take(i as int));
                assert(done.last() == old_pending@[i as int]@);
            }
            let elapsed: u128 = now.saturating_sub(old_pending[i].seen_at);
            let path = old_pending[i].path.clone();
            if elapsed >= self.window {
                proof {
                    let quiet = quiet_paths(before.take(i as int), now, window);
                    assert(quiet.push(path@).drop_last() =~= quiet);
                }
                ready = place_path(ready, path);
            } else {
                left.push(PendingPath { path, seen_at: old_pending[i].seen_at });
                assert(pending_views(left@) =~= left_before.push(done.last()));
            }
            i += 1;
        }
        assert(before.take(i as int) =~= before);
        self.pending = left;
        proof {
            lemma_still_pending_unique(before, now, window);
        }
        ready
    }
}

proof fn lemma_path_placed_at(sorted: Seq<Seq<char>>, path: Seq<char>, k: int)
    requires
        0 <= k <= sorted.len(),
        forall|j: int|
            k <= j < sorted.len() ==> parts_before(parts(path), parts(#[trigger] sorted[j])),
        k > 0 ==> !parts_before(parts(path), parts(sorted[k - 1])),
    ensures
        path_placed(sorted, path) == sorted.insert(k, path),
    decreases sorted.len(),
{
    if k < sorted.len() {
        assert(parts_before(parts(path), parts(sorted[sorted.len() - 1])));
        let rest = sorted.drop_last();
        assert forall|j: int| k <= j < rest.len() implies parts_before(
            parts(path),
            parts(#[trigger] rest[j]),
        ) by {
            assert(rest[j] == sorted[j]);
        }
        lemma_path_placed_at(rest, path, k);
        assert(path_placed(sorted, path) =~= sorted.insert(k, path));
    } else {
        assert(path_placed(sorted, path) =~= sorted.insert(k, path));
    }
}

fn place_path(sorted: Vec<String>, path: String) -> (out: Vec<String>)
    ensures
        texts(out@) == path_placed(texts(sorted@), path@),
{
    let ghost all = texts(sorted@);
    let ghost text = path@;
    let mut out = sorted;
    let mut k: usize = out.len();
    while k > 0 && path_is_before(path.as_str(), out[k - 1].as_str())
        invariant
            k <= out@.len(),
            all == texts(out@),
            text == path@,
            forall|j: int|
                k <= j < all.len() ==> parts_before(parts(text), parts(#[trigger] all[j])),
        decreases k,
    {
        assert(all[k - 1] == out@[k - 1]@);
        k -= 1;
    }
    proof {
        if k > 0 {
            assert(all[k - 1] == out@[k - 1]@);
        }
        lemma_path_placed_at(all, text, k as int);
    }
    out.insert(k, path);
    assert(texts(out@) =~= all.insert(k as int, text));
    out
}

proof fn lemma_still_pending_from(ps: Seq<Pending>, now: u128, window: u128, k: int)
    requires
        0 <= k < still_pending(ps, now, window).len(),
    ensures
        exists|i: int|
            0 <= i < ps.len() && #[trigger] ps[i] == still_pending(ps, now, window)[k],
    decreases ps.len(),
{
    if ps.len() > 0 {
        let rest = ps.drop_last();
        let before = still_pending(rest, now, window);
        if k == before.len() {
            assert(ps[ps.len() - 1] == still_pending(ps, now, window)[k]);
        } else {
            lemma_still_pending_from(rest, now, window, k);
            let i = choose|i: int| 0 <= i < rest.len() && #[trigger] rest[i] == before[k];
            assert(ps[i] == rest[i]);
        }
    }
}

proof fn lemma_still_pending_unique(ps: Seq<Pending>, now: u128, window: u128)
    requires
        no_path_twice(ps),
    ensures
        no_path_twice(still_pending(ps, now, window)),
    decreases ps.len(),
{
    if ps.len() > 0 {
        let rest = ps.drop_last();
        assert(no_path_twice(rest)) by {
            assert forall|i: int, j: int| 0 <= i < j < rest.len() implies !same_key(
                (#[trigger] rest[i]).path,
                (#[trigger] rest[j]).path,
            ) by {
                assert(!same_key(ps[i].path, ps[j].path));
            }
        }
        lemma_still_pending_unique(rest, now, window);
        let left = still_pending(ps, now, window);
        let before = still_pending(rest, now, window);
        assert forall|i: int, j: int| 0 <= i < j < left.len() implies !same_key(
            (#[trigger] left[i]).path,
            (#[trigger] left[j]).path,
        ) by {
            if j < before.len() {
                assert(!same_key(before[i].path, before[j].path));
            } else {
                lemma_still_pending_from(rest, now, window, i);
                let k = choose|k: int| 0 <= k < rest.len() && #[trigger] rest[k] == before[i];
                assert(!same_key(ps[k].path, ps[ps.len() - 1].path));
            }
        }
    }
}

// ---------------------------------------------------------------------------
// What a debouncer promises
// ---------------------------------------------------------------------------

/// A path that was seen is pending with the time at which it was seen last, whatever was
/// pending before.
pub proof fn law_last_sight_counts(ps: Seq<Pending>, path: Seq<char>, seen_at: u128)
    requires
        no_path_twice(ps),
    ensures
        no_path_twice(seen(ps, path, seen_at)),
        is_pending(seen(ps, path, seen_at), path),
        forall|i: int|
            0 <= i < seen(ps, path, seen_at).len() && same_key(
                (#[trigger] seen(ps, path, seen_at)[i]).path,
                path,
            ) ==> seen(ps, path, seen_at)[i].seen_at == seen_at,
{
    let after = seen(ps, path, seen_at);
    if is_pending(ps, path) {
        let i = choose|i: int| 0 <= i < ps.len() && same_key((#[trigger] ps[i]).path, path);
        assert(same_key(after[i].path, path));
        assert forall|a: int, b: int| 0 <= a < b < after.len() implies !same_key(
            (#[trigger] after[a]).path,
            (#[trigger] after[b]).path,
        ) by {
            assert(!same_key(ps[a].path, ps[b].path));
        }
    } else {
        assert(same_key(after[ps.len() as int].path, path));
        assert forall|a: int, b: int| 0 <= a < b < after.len() implies !same_key(
            (#[trigger] after[a]).path,
            (#[trigger] after[b]).path,
        ) by {
            if b < ps.len() {
                assert(!same_key(ps[a].path, ps[b].path));
            } else {
                assert(!same_key(ps[a].path, path));
            }
        }
    }
}

/// Exactly the paths that have been quiet for the window are handed out; the others stay
/// pending as they are.
pub proof fn law_only_quiet_paths_are_taken(ps: Seq<Pending>, now: u128, window: u128)
    ensures
        forall|i: int|
            0 <= i < ps.len() ==> if is_quiet(#[trigger] ps[i], now, window) {
                quiet_paths(ps, now, window).contains(ps[i].path)
            } else {
                still_pending(ps, now, window).contains(ps[i])
            },
        quiet_paths(ps, now, window).len() + still_pending(ps, now, window).len() == ps.len(),
        forall|k: int|
            0 <= k < still_pending(ps, now, window).len() ==> !is_quiet(
                #[trigger] still_pending(ps, now, window)[k],
                now,
                window,
            ),
    decreases ps.len(),
{
    if ps.len() > 0 {
        let rest = ps.drop_last();
        law_only_quiet_paths_are_taken(rest, now, window);
        let quiet = quiet_paths(ps, now, window);
        let left = still_pending(ps, now, window);
        let quiet_before = quiet_paths(rest, now, window);
        let left_before = still_pending(rest, now, window);
        assert forall|i: int| 0 <= i < ps.len() implies if is_quiet(
            #[trigger] ps[i],
            now,
            window,
        ) {
            quiet.contains(ps[i].path)
        } else {
            left.contains(ps[i])
        } by {
            if i < rest.len() {
                assert(rest[i] == ps[i]);
                if is_quiet(ps[i], now, window) {
                    let k = choose|k: int|
                        0 <= k < quiet_before.len() && quiet_before[k] == ps[i].path;
                    assert(quiet[k] == ps[i].path);
                } else {
                    let k = choose|k: int| 0 <= k < left_before.len() && left_before[k] == ps[i];
                    assert(left[k] == ps[i]);
                }
            } else if is_quiet(ps[i], now, window) {
                assert(quiet[quiet_before.len() as int] == ps[i].path);
            } else {
                assert(left[left_before.len() as int] == ps[i]);
            }
        }
        assert forall|k: int| 0 <= k < left.len() implies !is_quiet(
            #[trigger] left[k],
            now,
            window,
        ) by {
            if k < left_before.len() {
                assert(left[k] == left_before[k]);
            }
        }
    }
}

/// Whether no path comes before one that stands earlier.
pub open spec fn paths_ascend(paths: Seq<Seq<char>>) -> bool {
    forall|i: int, j: int|
        0 <= i < j < paths.len() ==> !parts_before(
            parts(#[trigger] paths[j]),
            parts(#[trigger] paths[i]),
        )
}

proof fn lemma_path_placed(sorted: Seq<Seq<char>>, path: Seq<char>)
    requires
        paths_ascend(sorted),
    ensures
        paths_ascend(path_placed(sorted, path)),
        path_placed(sorted, path).to_multiset() == sorted.to_multiset().insert(path),
    decreases sorted.len(),
{
    broadcast use vstd::seq_lib::group_to_multiset_ensures;

    if sorted.len() > 0 && parts_before(parts(path), parts(sorted.last())) {
        let rest = sorted.drop_last();
        assert forall|i: int, j: int| 0 <= i < j < rest.len() implies !parts_before(
            parts(#[trigger] rest[j]),
            parts(#[trigger] rest[i]),
        ) by {
            assert(!parts_before(parts(sorted[j]), parts(sorted[i])));
        }
        lemma_path_placed(rest, path);
        let out = path_placed(rest, path);
        let whole = out.push(sorted.last());
        assert(sorted =~= rest.push(sorted.last()));
        assert(whole.to_multiset() =~= sorted.to_multiset().insert(path));
        assert forall|i: int, j: int| 0 <= i < j < whole.len() implies !parts_before(
            parts(#[trigger] whole[j]),
            parts(#[trigger] whole[i]),
        ) by {
            if j == out.len() {
                assert(out.contains(whole[i]));
                assert(out.to_multiset().count(whole[i]) > 0);
                if whole[i] == path {
                    lemma_parts_before_total(parts(path), parts(sorted.last()));
                } else {
                    assert(rest.to_multiset().count(whole[i]) > 0);
                    assert(rest.contains(whole[i]));
                    let k = choose|k: int| 0 <= k < rest.len() && rest[k] == whole[i];
                    assert(!parts_before(parts(sorted[sorted.len() - 1]), parts(sorted[k])));
                }
            } else {
                assert(out[i] == whole[i] && out[j] == whole[j]);
            }
        }
    } else {
        let whole = sorted.push(path);
        assert forall|i: int, j: int| 0 <= i < j < whole.len() implies !parts_before(
            parts(#[trigger] whole[j]),
            parts(#[trigger] whole[i]),
        ) by {
            if j == sorted.len() {
                let last = sorted[sorted.len() - 1];
                assert(whole[i] == sorted[i]);
                assert(!parts_before(parts(path), parts(last)));
                if parts_before(parts(path), parts(sorted[i])) {
                    if i < sorted.len() - 1 {
                        assert(!parts_before(parts(last), parts(sorted[i])));
                        lemma_parts_before_total(parts(last), parts(sorted[i]));
                        if parts(last) != parts(sorted[i]) {
                            lemma_parts_before_transitive(
                                parts(path),
                                parts(sorted[i]),
                                parts(last),
                            );
                        }
                    }
                }
            } else {
                assert(whole[i] == sorted[i] && whole[j] == sorted[j]);
            }
        }
    }
}

/// Putting paths in order keeps every one of them, and leaves none before one that stands
/// earlier.
pub proof fn law_paths_are_ordered(paths: Seq<Seq<char>>)
    ensures
        paths_ascend(in_path_order(paths)),
        in_path_order(paths).to_multiset() == paths.to_multiset(),
    decreases paths.len(),
{
    broadcast use vstd::seq_lib::group_to_multiset_ensures;

    if paths.len() > 0 {
        law_paths_are_ordered(paths.drop_last());
        lemma_path_placed(in_path_order(paths.drop_last()), paths.last());
        assert(paths =~= paths.drop_last().push(paths.last()));
    } else {
        assert(in_path_order(paths) =~= paths);
    }
}

} // verus!
