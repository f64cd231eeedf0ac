//! What is found, read and listed, by the rows of the tables alone.
use vstd::prelude::*;
use vstd::utf8::*;

use crate::delta::patch_outcome;
use crate::store::expiry::held_at;
use crate::store::listing::{
    all_paths,
    file_of,
    history,
    in_context,
    is_live,
    law_oldest_first_sorts,
    lemma_file_of,
    lemma_no_file_of,
    live_count,
    live_paths,
    live_paths_in,
    newest_first,
    oldest_first,
    paths_in,
    recent,
    recent_entry,
    revisions_in,
    revisions_of,
    under,
    watcher_status,
    HistoryEntry,
    RecentView,
};
use crate::store::lookup::{
    chain_of,
    content_of,
    context_id_of,
    file_id_of,
    latest_at,
    lemma_context_id_of,
    lemma_file_id_of,
    lemma_latest_at,
    lemma_latest_is,
    lemma_revision_at,
    lemma_revision_of,
    lemma_unpassed,
    materialized,
    newer,
    numbers_of,
    reconstructed,
    revision_of,
    state_at,
    state_in,
    whole_chain,
};
use crate::store::retention::{lemma_one_full, lemma_outcome_step, outcome};
use crate::store::rows::{EventType, FileView, RevisionView, StorageKind, WatcherView};
use crate::store::shape::lemma_reversed_holds_the_same;
use crate::store::sound::lemma_chain_asked;
use crate::store::tables::{StoreError, Tables};
use crate::text::{ascending, lemma_sorted_texts, text_before};

verus! {

// ---------------------------------------------------------------------------
// Rows that are found
// ---------------------------------------------------------------------------

/// A context is found by its fingerprint, and a file by its context and its whole path;
/// where no row has them, nothing is found.
pub proof fn law_rows_are_found(t: Tables, context_id: i64, path: Seq<char>, fingerprint: Seq<char>)
    requires
        t.keyed(),
    ensures
        forall|f: int|
            0 <= f < t.files.len() && (#[trigger] t.files[f]).context_id == context_id
                && t.files[f].path == path ==> file_id_of(t.files, context_id, path) == Some(
                t.files[f].id,
            ),
        (forall|f: int|
            0 <= f < t.files.len() ==> !((#[trigger] t.files[f]).context_id == context_id
                && t.files[f].path == path)) ==> file_id_of(t.files, context_id, path) is None,
        forall|c: int|
            0 <= c < t.contexts.len() && (#[trigger] t.contexts[c]).record.fingerprint
                == fingerprint ==> context_id_of(t.contexts, fingerprint) == Some(
                t.contexts[c].id,
            ),
        (forall|c: int|
            0 <= c < t.contexts.len() ==> (#[trigger] t.contexts[c]).record.fingerprint
                != fingerprint) ==> context_id_of(t.contexts, fingerprint) is None,
{
    lemma_file_id_of(t.files, context_id, path);
    lemma_context_id_of(t.contexts, fingerprint);
    assert forall|f: int|
        0 <= f < t.files.len() && (#[trigger] t.files[f]).context_id == context_id
            && t.files[f].path == path implies file_id_of(t.files, context_id, path) == Some(
        t.files[f].id,
    ) by {
        let id = file_id_of(t.files, context_id, path)->Some_0;
        let i = choose|i: int|
            0 <= i < t.files.len() && (#[trigger] t.files[i]).id == id && t.files[i].context_id
                == context_id && t.files[i].path == path;
        if i < f {
            assert(!(t.files[i].context_id == t.files[f].context_id && t.files[i].path
                == t.files[f].path));
        } else if f < i {
            assert(!(t.files[f].context_id == t.files[i].context_id && t.files[f].path
                == t.files[i].path));
        }
    }
    assert forall|c: int|
        0 <= c < t.contexts.len() && (#[trigger] t.contexts[c]).record.fingerprint
            == fingerprint implies context_id_of(t.contexts, fingerprint) == Some(
        t.contexts[c].id,
    ) by {
        let id = context_id_of(t.contexts, fingerprint)->Some_0;
        let i = choose|i: int|
            0 <= i < t.contexts.len() && (#[trigger] t.contexts[i]).id == id
                && t.contexts[i].record.fingerprint == fingerprint;
        if i < c {
            assert(t.contexts[i].record.fingerprint != t.contexts[c].record.fingerprint);
        } else if c < i {
            assert(t.contexts[c].record.fingerprint != t.contexts[i].record.fingerprint);
        }
    }
}

// ---------------------------------------------------------------------------
// States
// ---------------------------------------------------------------------------

/// What a file held at a time is what its newest revision by then gives: nothing where that
/// is an end or where none was recorded by then. Of two revisions of one time the one with
/// the higher number is newer.
pub proof fn law_state_is_that_of_the_newest(t: Tables, f: int, i: int, at_ms: i64)
    requires
        t.keyed(),
        0 <= f < t.files.len(),
    ensures
        0 <= i < t.revisions.len() && t.revisions[i].file_id == t.files[f].id && held_at(
            t.revisions,
            t.revisions[i],
            at_ms,
        ) ==> state_at(t, t.files[f].path, at_ms, t.files[f].context_id) == (
        if t.revisions[i].event_type == EventType::Delete {
            Ok::<Option<Seq<char>>, StoreError>(None)
        } else {
            match content_of(t.revisions, t.revisions[i]) {
                Ok(text) => Ok(Some(text)),
                Err(e) => Err(e),
            }
        }),
        (forall|k: int|
            0 <= k < t.revisions.len() ==> !((#[trigger] t.revisions[k]).file_id == t.files[f].id
                && t.revisions[k].recorded_at_ms <= at_ms)) ==> state_at(
            t,
            t.files[f].path,
            at_ms,
            t.files[f].context_id,
        ) == Ok::<Option<Seq<char>>, StoreError>(None),
{
    let rs = t.revisions;
    let file = t.files[f];
    law_rows_are_found(t, file.context_id, file.path, Seq::empty());
    lemma_latest_at(rs, file.id, at_ms);
    if 0 <= i < rs.len() && rs[i].file_id == file.id && held_at(rs, rs[i], at_ms) {
        lemma_latest_is(rs, file.id, at_ms, i);
    }
}

/// A path that a context does not know is not there, and in a context that is not known no
/// file is.
pub proof fn law_unknown_files_are_absent(
    t: Tables,
    path: Seq<char>,
    fingerprint: Seq<char>,
    context_id: i64,
    at_ms: i64,
)
    requires
        t.keyed(),
    ensures
        (forall|f: int|
            0 <= f < t.files.len() ==> !((#[trigger] t.files[f]).context_id == context_id
                && t.files[f].path == path)) ==> state_at(t, path, at_ms, context_id) == Ok::<
            Option<Seq<char>>,
            StoreError,
        >(None),
        (forall|c: int|
            0 <= c < t.contexts.len() ==> (#[trigger] t.contexts[c]).record.fingerprint
                != fingerprint) ==> state_in(t, fingerprint, path, at_ms) == Ok::<
            Option<Seq<char>>,
            StoreError,
        >(None),
        forall|c: int|
            0 <= c < t.contexts.len() && (#[trigger] t.contexts[c]).record.fingerprint
                == fingerprint ==> state_in(t, fingerprint, path, at_ms) == state_at(
                t,
                path,
                at_ms,
                t.contexts[c].id,
            ),
{
    law_rows_are_found(t, context_id, path, fingerprint);
}

/// A full copy gives the text that it holds.
pub proof fn law_full_copies_give_their_text(
    rs: Seq<RevisionView>,
    r: RevisionView,
    text: Seq<char>,
)
    requires
        r.event_type != EventType::Delete,
        r.storage_kind == StorageKind::Full,
        r.payload == Some(encode_utf8(text)),
    ensures
        content_of(rs, r) == Ok::<Seq<char>, StoreError>(text),
{
    lemma_one_full(rs, r, r.id, set![r.id]);
    encode_utf8_valid_utf8(text);
    encode_utf8_decode_utf8(text);
}

/// A chain of older and older bases does not pass the numbers above it.
proof fn lemma_older_chain(
    rs: Seq<RevisionView>,
    at: int,
    asked: i64,
    p: Set<i64>,
    q: Set<i64>,
)
    requires
        bases_are_older(rs),
        0 <= at < rs.len(),
        forall|id: i64| #[trigger] p.contains(id) ==> id >= rs[at].id,
        forall|id: i64| #[trigger] q.contains(id) ==> id >= rs[at].id,
    ensures
        chain_of(rs, rs[at], asked, p) == chain_of(rs, rs[at], asked, q),
    decreases at,
{
    let r = rs[at];
    if r.storage_kind != StorageKind::Full && r.base_revision_id is Some {
        let b = r.base_revision_id->Some_0;
        if revision_of(rs, b) is Some {
            lemma_revision_of(rs, b);
            let j = choose|j: int| 0 <= j < rs.len() && #[trigger] rs[j] == revision_of(
                rs,
                b,
            )->Some_0;
            if at < j {
                assert(rs[at].id < rs[j].id);
            }
            lemma_older_chain(rs, j, asked, p.insert(b), q.insert(b));
        }
    }
}

/// Whether numbers ascend, and what a revision rests on is older.
pub open spec fn bases_are_older(rs: Seq<RevisionView>) -> bool {
    &&& forall|i: int, j: int|
        0 <= i < j < rs.len() ==> (#[trigger] rs[i]).id < (#[trigger] rs[j]).id
    &&& forall|i: int|
        0 <= i < rs.len() ==> ((#[trigger] rs[i]).base_revision_id matches Some(b) ==> b
            < rs[i].id)
}

/// A patch gives what it makes of the text that its base gives, and fails as its base does.
pub proof fn law_patches_change_their_base(rs: Seq<RevisionView>, i: int, j: int, patch: Seq<u8>)
    requires
        bases_are_older(rs),
        0 <= i < rs.len(),
        0 <= j < rs.len(),
        rs[i].event_type != EventType::Delete,
        rs[j].event_type != EventType::Delete,
        rs[i].storage_kind == StorageKind::Patch,
        rs[i].base_revision_id == Some(rs[j].id),
        rs[i].payload == Some(patch),
    ensures
        content_of(rs, rs[j]) matches Ok(before) ==> content_of(rs, rs[i]) == (
        match patch_outcome(before, patch) {
            Ok(text) => Ok::<Seq<char>, StoreError>(text),
            Err(e) => Err(StoreError::Delta(e)),
        }),
        content_of(rs, rs[j]) is Err ==> content_of(rs, rs[i]) is Err,
{
    let r = rs[i];
    let base = rs[j];
    lemma_revision_at(rs, j);
    lemma_outcome_step(rs, r, r.id, set![r.id]);
    lemma_older_chain(rs, j, r.id, set![r.id].insert(base.id), set![base.id]);
    if chain_of(rs, base, base.id, set![base.id]) is Ok {
        lemma_chain_asked(rs, base, base.id, r.id, set![base.id]);
    }
    if chain_of(rs, base, r.id, set![base.id]) is Ok {
        lemma_chain_asked(rs, base, r.id, base.id, set![base.id]);
    }
    assert(outcome(rs, r, r.id, set![r.id]) == content_of(rs, r));
}

// ---------------------------------------------------------------------------
// Lists
// ---------------------------------------------------------------------------

/// Whether revisions stand newest first: by their times, those of one time by their
/// numbers.
pub open spec fn stand_newest_first(rs: Seq<RevisionView>) -> bool {
    forall|i: int, j: int|
        0 <= i < j < rs.len() ==> (#[trigger] rs[i]).recorded_at_ms > (
        #[trigger] rs[j]).recorded_at_ms || (rs[i].recorded_at_ms == rs[j].recorded_at_ms
            && rs[i].id >= rs[j].id)
}

proof fn lemma_own_revisions(rs: Seq<RevisionView>, file_id: i64)
    ensures
        revisions_of(rs, file_id) == rs.filter(|r: RevisionView| r.file_id == file_id),
    decreases rs.len(),
{
    reveal(Seq::filter);
    if rs.len() > 0 {
        lemma_own_revisions(rs.drop_last(), file_id);
    } else {
        assert(revisions_of(rs, file_id) =~= rs.filter(|r: RevisionView| r.file_id == file_id));
    }
}

proof fn lemma_newest_first(rs: Seq<RevisionView>)
    ensures
        newest_first(rs).to_multiset() == rs.to_multiset(),
        newest_first(rs).len() == rs.len(),
        stand_newest_first(newest_first(rs)),
{
    let old = oldest_first(rs);
    let new = newest_first(rs);
    law_oldest_first_sorts(rs);
    lemma_reversed_holds_the_same(old);
    assert forall|i: int, j: int| 0 <= i < j < new.len() implies (#[trigger] new[i]).recorded_at_ms
        > (#[trigger] new[j]).recorded_at_ms || (new[i].recorded_at_ms == new[j].recorded_at_ms
        && new[i].id >= new[j].id) by {
        assert(new[i] == old[old.len() - 1 - i]);
        assert(new[j] == old[old.len() - 1 - j]);
        assert(!newer(old[old.len() - 1 - j], old[old.len() - 1 - i]));
    }
}

/// The history of a file shows the time, event, size and storage of each of its revisions,
/// newest first, and of no other; where no file has the path in the context it is empty.
pub proof fn law_history_shows_the_rows_of_a_file(t: Tables, path: Seq<char>, context_id: i64)
    requires
        t.keyed(),
    ensures
        forall|f: int|
            0 <= f < t.files.len() && (#[trigger] t.files[f]).context_id == context_id
                && t.files[f].path == path ==> exists|sorted: Seq<RevisionView>|
                #![trigger stand_newest_first(sorted)]
                {
                    &&& stand_newest_first(sorted)
                    &&& sorted.to_multiset() == t.revisions.filter(
                        |r: RevisionView| r.file_id == t.files[f].id,
                    ).to_multiset()
                    &&& history(t, path, context_id) == sorted.map_values(
                        |r: RevisionView|
                            HistoryEntry {
                                recorded_at_ms: r.recorded_at_ms,
                                event_type: r.event_type,
                                size_bytes: r.size_bytes,
                                storage_kind: r.storage_kind,
                            },
                    )
                },
        (forall|f: int|
            0 <= f < t.files.len() ==> !((#[trigger] t.files[f]).context_id == context_id
                && t.files[f].path == path)) ==> history(t, path, context_id).len() == 0,
{
    law_rows_are_found(t, context_id, path, Seq::empty());
    assert forall|f: int|
        0 <= f < t.files.len() && (#[trigger] t.files[f]).context_id == context_id
            && t.files[f].path == path implies exists|sorted: Seq<RevisionView>|
        #![trigger stand_newest_first(sorted)]
        {
            &&& stand_newest_first(sorted)
            &&& sorted.to_multiset() == t.revisions.filter(
                |r: RevisionView| r.file_id == t.files[f].id,
            ).to_multiset()
            &&& history(t, path, context_id) == sorted.map_values(
                |r: RevisionView|
                    HistoryEntry {
                        recorded_at_ms: r.recorded_at_ms,
                        event_type: r.event_type,
                        size_bytes: r.size_bytes,
                        storage_kind: r.storage_kind,
                    },
            )
        } by {
        let id = t.files[f].id;
        let own = revisions_of(t.revisions, id);
        let sorted = newest_first(own);
        lemma_own_revisions(t.revisions, id);
        lemma_newest_first(own);
        assert(stand_newest_first(sorted));
        assert(history(t, path, context_id) =~= sorted.map_values(
            |r: RevisionView|
                HistoryEntry {
                    recorded_at_ms: r.recorded_at_ms,
                    event_type: r.event_type,
                    size_bytes: r.size_bytes,
                    storage_kind: r.storage_kind,
                },
        ));
    }
}

/// Whether a revision belongs to a file of a context.
pub open spec fn is_of_context(t: Tables, r: RevisionView, context_id: i64) -> bool {
    exists|f: int|
        0 <= f < t.files.len() && (#[trigger] t.files[f]).id == r.file_id && t.files[f].context_id
            == context_id
}

/// Whether a line of the recent changes shows a revision: under the path of its file, with
/// its time and event.
pub open spec fn shows_revision(t: Tables, line: RecentView, r: RevisionView) -> bool {
    &&& line.recorded_at_ms == r.recorded_at_ms
    &&& line.event_type == r.event_type
    &&& forall|f: int|
        0 <= f < t.files.len() && (#[trigger] t.files[f]).id == r.file_id ==> line.path
            == t.files[f].path
}

proof fn lemma_in_context(t: Tables, r: RevisionView, context_id: i64)
    requires
        t.keyed(),
    ensures
        in_context(t.files, r, context_id) == is_of_context(t, r, context_id),
        forall|f: int|
            0 <= f < t.files.len() && (#[trigger] t.files[f]).id == r.file_id ==> file_of(
                t.files,
                r.file_id,
            ) == Some(t.files[f]),
{
    let fs = t.files;
    assert forall|f: int| 0 <= f < fs.len() && (#[trigger] fs[f]).id == r.file_id implies file_of(
        fs,
        r.file_id,
    ) == Some(fs[f]) by {
        lemma_file_of(fs, f, t.last_file_id);
    }
    if forall|f: int| 0 <= f < fs.len() ==> (#[trigger] fs[f]).id != r.file_id {
        lemma_no_file_of(fs, r.file_id);
    } else {
        let f = choose|f: int| 0 <= f < fs.len() && (#[trigger] fs[f]).id == r.file_id;
        assert(file_of(fs, r.file_id) == Some(fs[f]));
    }
}

proof fn lemma_context_revisions(t: Tables, rs: Seq<RevisionView>, context_id: i64)
    requires
        t.keyed(),
    ensures
        revisions_in(rs, t.files, context_id) == rs.filter(
            |r: RevisionView| is_of_context(t, r, context_id),
        ),
    decreases rs.len(),
{
    reveal(Seq::filter);
    if rs.len() > 0 {
        lemma_context_revisions(t, rs.drop_last(), context_id);
        lemma_in_context(t, rs.last(), context_id);
    } else {
        assert(revisions_in(rs, t.files, context_id) =~= rs.filter(
            |r: RevisionView| is_of_context(t, r, context_id),
        ));
    }
}

/// The recent changes of a context show its newest revisions, newest first, each under the
/// path of its file: all of them, or as many as were asked for.
pub proof fn law_recent_changes_are_the_newest(t: Tables, limit: nat, context_id: i64)
    requires
        t.keyed(),
    ensures
        exists|sorted: Seq<RevisionView>|
            #![trigger stand_newest_first(sorted)]
            {
                let shown = recent(t, limit, context_id);
                &&& stand_newest_first(sorted)
                &&& sorted.to_multiset() == t.revisions.filter(
                    |r: RevisionView| is_of_context(t, r, context_id),
                ).to_multiset()
                &&& shown.len() == (if limit < sorted.len() {
                    limit
                } else {
                    sorted.len()
                })
                &&& forall|i: int|
                    0 <= i < shown.len() ==> shows_revision(t, #[trigger] shown[i], sorted[i])
            },
{
    let own = revisions_in(t.revisions, t.files, context_id);
    let sorted = newest_first(own);
    let shown = recent(t, limit, context_id);
    lemma_context_revisions(t, t.revisions, context_id);
    lemma_newest_first(own);
    assert(stand_newest_first(sorted));
    assert forall|i: int| 0 <= i < shown.len() implies shows_revision(
        t,
        #[trigger] shown[i],
        sorted[i],
    ) by {
        lemma_in_context(t, sorted[i], context_id);
        assert(shown[i] == recent_entry(t.files, sorted[i]));
    }
}

/// A shorter list of recent changes is the start of a longer one.
pub proof fn law_fewer_recent_changes_are_the_first(
    t: Tables,
    fewer: nat,
    more: nat,
    context_id: i64,
)
    requires
        fewer <= more,
    ensures
        recent(t, fewer, context_id).len() <= recent(t, more, context_id).len(),
        recent(t, fewer, context_id) == recent(t, more, context_id).take(
            recent(t, fewer, context_id).len() as int,
        ),
{
    let all = recent(t, more, context_id);
    let some = recent(t, fewer, context_id);
    assert(some =~= all.take(some.len() as int));
}

proof fn lemma_context_paths(fs: Seq<FileView>, context_id: i64)
    ensures
        paths_in(fs, context_id) == fs.filter(
            |f: FileView| f.context_id == context_id,
        ).map_values(|f: FileView| f.path),
    decreases fs.len(),
{
    reveal(Seq::filter);
    let own = fs.filter(|f: FileView| f.context_id == context_id);
    if fs.len() > 0 {
        lemma_context_paths(fs.drop_last(), context_id);
        let before = fs.drop_last().filter(|f: FileView| f.context_id == context_id);
        if fs.last().context_id == context_id {
            assert(own =~= before.push(fs.last()));
            assert(own.map_values(|f: FileView| f.path) =~= before.map_values(
                |f: FileView| f.path,
            ).push(fs.last().path));
        }
    } else {
        assert(paths_in(fs, context_id) =~= own.map_values(|f: FileView| f.path));
    }
}

/// All paths of a context are listed, each as often as there are files of it, in the order
/// of their characters.
pub proof fn law_all_paths_are_listed(t: Tables, context_id: i64)
    ensures
        all_paths(t, context_id).to_multiset() == t.files.filter(
            |f: FileView| f.context_id == context_id,
        ).map_values(|f: FileView| f.path).to_multiset(),
        forall|i: int, j: int|
            0 <= i < j < all_paths(t, context_id).len() ==> !text_before(
                #[trigger] all_paths(t, context_id)[j],
                #[trigger] all_paths(t, context_id)[i],
            ),
        forall|path: Seq<char>| #[trigger]
            all_paths(t, context_id).contains(path) <==> exists|f: int|
                0 <= f < t.files.len() && (#[trigger] t.files[f]).context_id == context_id
                    && t.files[f].path == path,
{
    let listed = paths_in(t.files, context_id);
    lemma_context_paths(t.files, context_id);
    lemma_sorted_texts(listed);
    assert(ascending(all_paths(t, context_id)));
    assert forall|path: Seq<char>| #[trigger] all_paths(t, context_id).contains(
        path,
    ) <==> exists|f: int|
        0 <= f < t.files.len() && (#[trigger] t.files[f]).context_id == context_id
            && t.files[f].path == path by {
        lemma_listed_paths(t.files, context_id, path);
        assert(all_paths(t, context_id).contains(path) <==> listed.contains(path));
    }
}

proof fn lemma_listed_paths(fs: Seq<FileView>, context_id: i64, path: Seq<char>)
    ensures
        paths_in(fs, context_id).contains(path) <==> exists|f: int|
            0 <= f < fs.len() && (#[trigger] fs[f]).context_id == context_id && fs[f].path == path,
    decreases fs.len(),
{
    if fs.len() > 0 {
        let rest = fs.drop_last();
        lemma_listed_paths(rest, context_id, path);
        let all = paths_in(fs, context_id);
        let before = paths_in(rest, context_id);
        if all.contains(path) {
            let k = choose|k: int| 0 <= k < all.len() && all[k] == path;
            if k < before.len() {
                assert(before[k] == path);
                let f = choose|f: int|
                    0 <= f < rest.len() && (#[trigger] rest[f]).context_id == context_id
                        && rest[f].path == path;
                assert(fs[f] == rest[f]);
            } else {
                assert(fs[fs.len() - 1] == fs.last());
            }
        }
        if exists|f: int|
            0 <= f < fs.len() && (#[trigger] fs[f]).context_id == context_id && fs[f].path
                == path {
            let f = choose|f: int|
                0 <= f < fs.len() && (#[trigger] fs[f]).context_id == context_id && fs[f].path
                    == path;
            if f < rest.len() {
                assert(rest[f] == fs[f]);
                let k = choose|k: int| 0 <= k < before.len() && before[k] == path;
                assert(all[k] == path);
            } else {
                assert(all[all.len() - 1] == path);
            }
        }
    }
}

/// Whether a file is there by its newest revision.
pub open spec fn is_there(t: Tables, f: FileView) -> bool {
    exists|i: int|
        0 <= i < t.revisions.len() && (#[trigger] t.revisions[i]).file_id == f.id && held_at(
            t.revisions,
            t.revisions[i],
            i64::MAX,
        ) && t.revisions[i].event_type != EventType::Delete
}

proof fn lemma_live_is_there(t: Tables, f: FileView)
    requires
        t.keyed(),
    ensures
        is_live(t.revisions, f) == is_there(t, f),
{
    let rs = t.revisions;
    lemma_latest_at(rs, f.id, i64::MAX);
    if is_there(t, f) {
        let i = choose|i: int|
            0 <= i < rs.len() && (#[trigger] rs[i]).file_id == f.id && held_at(
                rs,
                rs[i],
                i64::MAX,
            ) && rs[i].event_type != EventType::Delete;
        lemma_latest_is(rs, f.id, i64::MAX, i);
    }
    if is_live(rs, f) {
        let r = latest_at(rs, f.id, i64::MAX)->Some_0;
        let i = choose|i: int| 0 <= i < rs.len() && #[trigger] rs[i] == r;
        assert(held_at(rs, rs[i], i64::MAX));
    }
}

/// The files that are counted as there are those whose newest revision is no end.
pub proof fn law_live_files_are_counted(t: Tables, fs: Seq<FileView>)
    requires
        t.keyed(),
    ensures
        live_count(fs, t.revisions) == fs.filter(|f: FileView| is_there(t, f)).len(),
    decreases fs.len(),
{
    reveal(Seq::filter);
    if fs.len() > 0 {
        law_live_files_are_counted(t, fs.drop_last());
        lemma_live_is_there(t, fs.last());
    }
}

/// A watcher is taken to be at work while its last sign of life is no more than ten seconds
/// old.
pub proof fn law_watchers_are_stale_after_ten_seconds(w: WatcherView, now_ms: i64)
    ensures
        watcher_status(Some(w), now_ms).active <==> now_ms <= w.heartbeat_ms + 10_000,
        watcher_status(Some(w), now_ms).pid == Some(w.pid),
        watcher_status(Some(w), now_ms).started_at_ms == Some(w.started_at_ms),
        watcher_status(Some(w), now_ms).heartbeat_ms == Some(w.heartbeat_ms),
        !watcher_status(None, now_ms).active,
        watcher_status(None, now_ms).pid is None,
{
}

// ---------------------------------------------------------------------------
// What cannot be read
// ---------------------------------------------------------------------------

proof fn lemma_failed_chain_names_what_was_asked(
    rs: Seq<RevisionView>,
    r: RevisionView,
    asked: i64,
    passed: Set<i64>,
)
    ensures
        chain_of(rs, r, asked, passed) matches Err(e) ==> {
            ||| e == StoreError::MissingBase(asked)
            ||| e == StoreError::BaseLoop(asked)
            ||| exists|b: i64|
                e == StoreError::MissingBaseRevision(b) && revision_of(rs, b) is None
        },
    decreases numbers_of(rs).difference(passed).len(),
{
    if r.storage_kind != StorageKind::Full && r.base_revision_id is Some {
        let b = r.base_revision_id->Some_0;
        if revision_of(rs, b) is Some && !passed.contains(b) {
            lemma_unpassed(rs, b, passed);
            lemma_failed_chain_names_what_was_asked(
                rs,
                revision_of(rs, b)->Some_0,
                asked,
                passed.insert(b),
            );
        }
    }
}

/// A revision that is not there, that ends its file, or that rests on nothing without being a
/// full copy has no content, and the error names it. One whose bases do not lead to a full
/// copy has none either: the error names the revision that was asked for, or the base that is
/// missing.
pub proof fn law_unreadable_revisions(rs: Seq<RevisionView>, r: RevisionView, id: i64)
    ensures
        revision_of(rs, id) is None ==> reconstructed(rs, id) == Err::<Seq<char>, StoreError>(
            StoreError::MissingRevision(id),
        ),
        r.event_type == EventType::Delete ==> content_of(rs, r) == Err::<Seq<char>, StoreError>(
            StoreError::DeletedRevision(r.id),
        ),
        r.event_type != EventType::Delete && r.storage_kind != StorageKind::Full
            && r.base_revision_id is None ==> content_of(rs, r) == Err::<Seq<char>, StoreError>(
            StoreError::MissingBase(r.id),
        ),
        r.event_type != EventType::Delete && whole_chain(rs, r) is Err ==> {
            let e = whole_chain(rs, r)->Err_0;
            &&& content_of(rs, r) == Err::<Seq<char>, StoreError>(e)
            &&& e == StoreError::MissingBase(r.id) || e == StoreError::BaseLoop(r.id) || exists|
                b: i64,
            |
                e == StoreError::MissingBaseRevision(b) && revision_of(rs, b) is None
        },
        r.event_type != EventType::Delete && r.storage_kind == StorageKind::Full && r.payload is None
            ==> content_of(rs, r) == Err::<Seq<char>, StoreError>(
            StoreError::MissingFullPayload(r.id),
        ),
        r.event_type != EventType::Delete && r.storage_kind == StorageKind::Full && (r.payload
            matches Some(bytes) && !valid_utf8(bytes)) ==> content_of(rs, r) == Err::<
            Seq<char>,
            StoreError,
        >(StoreError::InvalidUtf8(r.id)),
{
    lemma_failed_chain_names_what_was_asked(rs, r, r.id, set![r.id]);
    if r.event_type != EventType::Delete && r.storage_kind == StorageKind::Full {
        let chain = seq![r];
        assert(chain.drop_first() =~= Seq::<RevisionView>::empty());
        assert(materialized(chain.drop_first()) is Ok);
    }
}

/// The live paths of a context under a prefix are those of its files that are there and lie
/// under it, each as often as there are files of it, in the order of their characters.
pub proof fn law_live_paths_are_listed(t: Tables, context_id: i64, prefix: Seq<char>)
    ensures
        live_paths(t, context_id, prefix).to_multiset() == t.files.filter(
            |f: FileView|
                f.context_id == context_id && is_live(t.revisions, f) && under(f.path, prefix),
        ).map_values(|f: FileView| f.path).to_multiset(),
        forall|i: int, j: int|
            0 <= i < j < live_paths(t, context_id, prefix).len() ==> !text_before(
                #[trigger] live_paths(t, context_id, prefix)[j],
                #[trigger] live_paths(t, context_id, prefix)[i],
            ),
{
    lemma_live_paths_in(t.files, t.revisions, context_id, prefix);
    lemma_sorted_texts(live_paths_in(t.files, t.revisions, context_id, prefix));
    assert(ascending(live_paths(t, context_id, prefix)));
}

proof fn lemma_live_paths_in(
    fs: Seq<FileView>,
    rs: Seq<RevisionView>,
    context_id: i64,
    prefix: Seq<char>,
)
    ensures
        live_paths_in(fs, rs, context_id, prefix) == fs.filter(
            |f: FileView| f.context_id == context_id && is_live(rs, f) && under(f.path, prefix),
        ).map_values(|f: FileView| f.path),
    decreases fs.len(),
{
    reveal(Seq::filter);
    let wanted = |f: FileView|
        f.context_id == context_id && is_live(rs, f) && under(f.path, prefix);
    let path_of = |f: FileView| f.path;
    if fs.len() > 0 {
        lemma_live_paths_in(fs.drop_last(), rs, context_id, prefix);
        let before = fs.drop_last().filter(wanted);
        assert(before.push(fs.last()).map_values(path_of) =~= before.map_values(path_of).push(
            fs.last().path,
        ));
    } else {
        assert(fs.filter(wanted).map_values(path_of) =~= Seq::<Seq<char>>::empty());
    }
}

} // verus!
