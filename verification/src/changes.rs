//! What is read after changes were recorded.
use vstd::prelude::*;

use crate::path::normalized;
use crate::snapshot::{
    unseen,
    with_observed,
    with_scanned_file,
    with_scanned_files,
    ObservedView,
    ScanView,
    Scanned,
    SnapshotError,
};
use crate::store::laws::{
    law_delete_is_read_back,
    law_delete_keeps_other_states,
    law_known_text_is_read_back,
    law_nothing_is_left_below,
    law_text_is_read_back,
    law_text_keeps_other_states,
    lemma_one_more_end,
    lemma_recording_leaves_nothing_after,
    patch_leads_to,
};
use crate::store::listing::{
    covers,
    before_nul,
    folded,
    live_paths,
    live_paths_in,
    like,
    under,
    with_deletes,
    with_deletes_under,
};
use crate::store::lookup::{file_id_of, latest, latest_at, lemma_latest_at, lemma_latest_is, state_at};
use crate::store::newest::law_delete_keeps_agreement;
use crate::store::record::{with_delete, with_text};
use crate::store::rows::{FileView, RevisionView};
use crate::store::sound::{digest_tells, ends_at, newest_reads_back, nothing_after, recorded_by};
use crate::store::tables::{StoreError, Tables};
use crate::text::{
    byte_len,
    lemma_position_of,
    lemma_position_unique,
    lemma_sorted_texts,
    position_of,
};

verus! {

/// Whether two timelines read the same at a time.
pub open spec fn same_state(
    before: Tables,
    after: Tables,
    path: Seq<char>,
    at_ms: i64,
    context_id: i64,
) -> bool {
    state_at(after, path, at_ms, context_id) == state_at(before, path, at_ms, context_id)
}

/// Whether the file under a path is not there at a time.
pub open spec fn is_absent(t: Tables, path: Seq<char>, at_ms: i64, context_id: i64) -> bool {
    state_at(t, path, at_ms, context_id) == Ok::<Option<Seq<char>>, StoreError>(None)
}

/// Whether what is read follows what was found under a tracked path at a time.
///
/// Nothing changes before that time or in other contexts. A text that was found is what is
/// read from then on, and no other file changes. What is missing is absent from then on; if
/// it was no file, so is all that lies below it; and no other file changes. What is no file
/// to keep changes nothing.
pub open spec fn follows_observed(
    before: Tables,
    after: Tables,
    path: Seq<char>,
    observed: ObservedView,
    recorded_at_ms: i64,
    context_id: i64,
) -> bool {
    &&& forall|q: Seq<char>, c: i64, at_ms: i64|
        c != context_id || at_ms < recorded_at_ms ==> #[trigger] same_state(
            before,
            after,
            q,
            at_ms,
            c,
        )
    &&& match observed {
        ObservedView::Directory => after == before,
        ObservedView::File(None) => after == before,
        ObservedView::File(Some(text)) => {
            &&& forall|q: Seq<char>, at_ms: i64|
                q != path ==> #[trigger] same_state(before, after, q, at_ms, context_id)
            &&& recorded_by(before, path, context_id, recorded_at_ms) && newest_reads_back(
                before,
                path,
                context_id,
            ) && digest_tells(before, path, context_id, text) ==> forall|at_ms: i64|
                at_ms >= recorded_at_ms ==> #[trigger] state_at(
                    after,
                    path,
                    at_ms,
                    context_id,
                ) == Ok::<Option<Seq<char>>, StoreError>(Some(text))
        },
        ObservedView::Missing => nothing_after(before, context_id, recorded_at_ms) ==> {
            &&& forall|at_ms: i64|
                at_ms >= recorded_at_ms ==> #[trigger] is_absent(after, path, at_ms, context_id)
            &&& is_absent(before, path, recorded_at_ms, context_id) ==> forall|
                rest: Seq<char>,
                at_ms: i64,
            |
                at_ms >= recorded_at_ms ==> #[trigger] is_absent(
                    after,
                    path + seq!['/'] + rest,
                    at_ms,
                    context_id,
                )
            &&& forall|q: Seq<char>, at_ms: i64|
                q != path && (!under(q, path + seq!['/']) || !is_absent(
                    before,
                    path,
                    recorded_at_ms,
                    context_id,
                )) ==> #[trigger] same_state(before, after, q, at_ms, context_id)
        },
    }
}

// ---------------------------------------------------------------------------
// Ends of many files
// ---------------------------------------------------------------------------

/// Recording ends changes no state before their time and none of another context.
pub proof fn lemma_deletes_keep_other_states(
    t: Tables,
    paths: Seq<Seq<char>>,
    recorded_at_ms: i64,
    context_id: i64,
    q: Seq<char>,
    c: i64,
    at_ms: i64,
)
    requires
        t.wf(),
        c != context_id || at_ms < recorded_at_ms || !paths.contains(q),
    ensures
        with_deletes(t, paths, recorded_at_ms, context_id).0.wf(),
        same_state(t, with_deletes(t, paths, recorded_at_ms, context_id).0, q, at_ms, c),
    decreases paths.len(),
{
    if paths.len() > 0 {
        let rest = paths.drop_last();
        let last = paths.last();
        if rest.contains(q) {
            let k = choose|k: int| 0 <= k < rest.len() && rest[k] == q;
            assert(paths[k] == q);
        }
        lemma_deletes_keep_other_states(t, rest, recorded_at_ms, context_id, q, c, at_ms);
        let (u, res) = with_deletes(t, rest, recorded_at_ms, context_id);
        if res is Ok && with_delete(u, last, recorded_at_ms, context_id) is Ok {
            law_delete_keeps_agreement(u, last, recorded_at_ms, context_id);
            assert(paths[paths.len() - 1] == last);
            law_delete_keeps_other_states(u, last, recorded_at_ms, context_id, q, c, at_ms);
        }
    }
}

/// Where ends were recorded without failure, those files are absent from then on.
pub proof fn lemma_deletes_end(
    t: Tables,
    paths: Seq<Seq<char>>,
    recorded_at_ms: i64,
    context_id: i64,
)
    requires
        t.wf(),
        nothing_after(t, context_id, recorded_at_ms),
        with_deletes(t, paths, recorded_at_ms, context_id).1 is Ok,
    ensures
        ({
            let u = with_deletes(t, paths, recorded_at_ms, context_id).0;
            &&& u.wf()
            &&& nothing_after(u, context_id, recorded_at_ms)
            &&& ends_at(t, u, paths, recorded_at_ms, context_id)
        }),
    decreases paths.len(),
{
    if paths.len() > 0 {
        let rest = paths.drop_last();
        let last = paths.last();
        lemma_deletes_end(t, rest, recorded_at_ms, context_id);
        let u = with_deletes(t, rest, recorded_at_ms, context_id).0;
        let v = with_deletes(t, paths, recorded_at_ms, context_id).0;
        assert(recorded_by(u, last, context_id, recorded_at_ms));
        law_delete_keeps_agreement(u, last, recorded_at_ms, context_id);
        law_delete_is_read_back(u, last, recorded_at_ms, context_id);
        lemma_one_more_end(t, u, v, rest, last, recorded_at_ms, context_id);
        assert(rest.push(last) =~= paths);
    }
}

/// What is listed under a prefix lies under it.
pub proof fn lemma_listed_lies_under(
    fs: Seq<FileView>,
    rs: Seq<RevisionView>,
    context_id: i64,
    prefix: Seq<char>,
    path: Seq<char>,
)
    requires
        live_paths_in(fs, rs, context_id, prefix).contains(path),
    ensures
        under(path, prefix),
    decreases fs.len(),
{
    let all = live_paths_in(fs, rs, context_id, prefix);
    if fs.len() > 0 {
        let rest = live_paths_in(fs.drop_last(), rs, context_id, prefix);
        let k = choose|k: int| 0 <= k < all.len() && all[k] == path;
        if k < rest.len() {
            assert(rest[k] == path);
            lemma_listed_lies_under(fs.drop_last(), rs, context_id, prefix, path);
        }
    }
}

// ---------------------------------------------------------------------------
// Single changes
// ---------------------------------------------------------------------------

/// A file that is absent at the time of the last recording takes no end.
proof fn lemma_absent_takes_no_end(
    t: Tables,
    path: Seq<char>,
    recorded_at_ms: i64,
    context_id: i64,
)
    requires
        t.wf(),
        recorded_by(t, path, context_id, recorded_at_ms),
        with_delete(t, path, recorded_at_ms, context_id) is Ok,
    ensures
        is_absent(t, path, recorded_at_ms, context_id) == !with_delete(
            t,
            path,
            recorded_at_ms,
            context_id,
        )->Ok_0.1,
{
    let rs = t.revisions;
    if file_id_of(t.files, context_id, path) is Some {
        let id = file_id_of(t.files, context_id, path)->Some_0;
        lemma_latest_at(rs, id, i64::MAX);
        lemma_latest_at(rs, id, recorded_at_ms);
        if latest(rs, id) is Some {
            let r = latest(rs, id)->Some_0;
            let p = choose|p: int| 0 <= p < rs.len() && #[trigger] rs[p] == r;
            assert(rs[p].recorded_at_ms <= recorded_at_ms);
            lemma_latest_is(rs, id, recorded_at_ms, p);
        } else if latest_at(rs, id, recorded_at_ms) is Some {
            let r = latest_at(rs, id, recorded_at_ms)->Some_0;
            let p = choose|p: int| 0 <= p < rs.len() && #[trigger] rs[p] == r;
            assert(rs[p].file_id == id);
        }
    }
}

/// What is missing is absent from then on.
pub proof fn lemma_missing_is_absent(
    t: Tables,
    path: Seq<char>,
    recorded_at_ms: i64,
    context_id: i64,
)
    requires
        t.wf(),
        with_delete(t, path, recorded_at_ms, context_id) is Ok,
        !with_delete(t, path, recorded_at_ms, context_id)->Ok_0.1 ==> with_deletes_under(
            with_delete(t, path, recorded_at_ms, context_id)->Ok_0.0,
            path + seq!['/'],
            recorded_at_ms,
            context_id,
        ).1 is Ok,
    ensures
        ({
            let (u, added) = with_delete(t, path, recorded_at_ms, context_id)->Ok_0;
            let v = if added {
                u
            } else {
                with_deletes_under(u, path + seq!['/'], recorded_at_ms, context_id).0
            };
            follows_observed(
                t,
                v,
                path,
                ObservedView::Missing,
                recorded_at_ms,
                context_id,
            )
        }),
{
    let (u, added) = with_delete(t, path, recorded_at_ms, context_id)->Ok_0;
    let below = path + seq!['/'];
    let gone = live_paths(u, context_id, below);
    let v = if added {
        u
    } else {
        with_deletes_under(u, below, recorded_at_ms, context_id).0
    };
    law_delete_keeps_agreement(t, path, recorded_at_ms, context_id);
    assert forall|q: Seq<char>, c: i64, at_ms: i64|
        c != context_id || at_ms < recorded_at_ms implies #[trigger] same_state(
        t,
        v,
        q,
        at_ms,
        c,
    ) by {
        law_delete_keeps_other_states(t, path, recorded_at_ms, context_id, q, c, at_ms);
        if !added {
            lemma_deletes_keep_other_states(u, gone, recorded_at_ms, context_id, q, c, at_ms);
        }
    }
    if nothing_after(t, context_id, recorded_at_ms) {
        assert(recorded_by(t, path, context_id, recorded_at_ms));
        lemma_absent_takes_no_end(t, path, recorded_at_ms, context_id);
        law_delete_is_read_back(t, path, recorded_at_ms, context_id);
        lemma_recording_leaves_nothing_after(
            t,
            path,
            Seq::empty(),
            recorded_at_ms,
            context_id,
            1,
        );
        if !added {
            lemma_deletes_end(u, gone, recorded_at_ms, context_id);
        }
        assert forall|at_ms: i64| at_ms >= recorded_at_ms implies #[trigger] is_absent(
            v,
            path,
            at_ms,
            context_id,
        ) by {
            assert(state_at(u, path, at_ms, context_id) == Ok::<Option<Seq<char>>, StoreError>(
                None,
            ));
            if !added {
                assert(state_at(v, path, at_ms, context_id) == (if gone.contains(path) {
                    Ok::<Option<Seq<char>>, StoreError>(None)
                } else {
                    state_at(u, path, at_ms, context_id)
                }));
            }
        }
        if is_absent(t, path, recorded_at_ms, context_id) {
            assert forall|rest: Seq<char>, at_ms: i64|
                at_ms >= recorded_at_ms implies #[trigger] is_absent(
                v,
                path + seq!['/'] + rest,
                at_ms,
                context_id,
            ) by {
                law_nothing_is_left_below(
                    u,
                    v,
                    below,
                    rest,
                    recorded_at_ms,
                    at_ms,
                    context_id,
                );
            }
        }
        assert forall|q: Seq<char>, at_ms: i64|
            q != path && (!under(q, below) || !is_absent(
                t,
                path,
                recorded_at_ms,
                context_id,
            )) implies #[trigger] same_state(t, v, q, at_ms, context_id) by {
            law_delete_keeps_other_states(
                t,
                path,
                recorded_at_ms,
                context_id,
                q,
                context_id,
                at_ms,
            );
            if !added {
                if gone.contains(q) {
                    let all = live_paths_in(u.files, u.revisions, context_id, below);
                    lemma_sorted_texts(all);
                    lemma_listed_lies_under(u.files, u.revisions, context_id, below, q);
                }
                lemma_deletes_keep_other_states(
                    u,
                    gone,
                    recorded_at_ms,
                    context_id,
                    q,
                    context_id,
                    at_ms,
                );
            }
        }
    }
}

/// What recording a text changes, but for what is read of it.
pub proof fn lemma_found_changes_one_file(
    t: Tables,
    path: Seq<char>,
    text: Seq<char>,
    recorded_at_ms: i64,
    context_id: i64,
    interval: i64,
)
    requires
        t.wf(),
        with_text(t, path, text, recorded_at_ms, context_id, interval) is Ok,
    ensures
        ({
            let u = with_text(t, path, text, recorded_at_ms, context_id, interval)->Ok_0.0;
            &&& forall|q: Seq<char>, c: i64, at_ms: i64|
                c != context_id || at_ms < recorded_at_ms ==> #[trigger] same_state(
                    t,
                    u,
                    q,
                    at_ms,
                    c,
                )
            &&& forall|q: Seq<char>, at_ms: i64|
                q != path ==> #[trigger] same_state(t, u, q, at_ms, context_id)
        }),
{
    let u = with_text(t, path, text, recorded_at_ms, context_id, interval)->Ok_0.0;
    assert forall|q: Seq<char>, c: i64, at_ms: i64|
        c != context_id || at_ms < recorded_at_ms implies #[trigger] same_state(
        t,
        u,
        q,
        at_ms,
        c,
    ) by {
        law_text_keeps_other_states(
            t,
            path,
            text,
            recorded_at_ms,
            context_id,
            interval,
            q,
            c,
            at_ms,
        );
    }
    assert forall|q: Seq<char>, at_ms: i64| q != path implies #[trigger] same_state(
        t,
        u,
        q,
        at_ms,
        context_id,
    ) by {
        law_text_keeps_other_states(
            t,
            path,
            text,
            recorded_at_ms,
            context_id,
            interval,
            q,
            context_id,
            at_ms,
        );
    }
}

/// What is read after a change was recorded follows what was found under the path: a new
/// text of a known file as well as a new file, the end of a file, and the end of all that
/// lay in a directory. The patch that is stored, if any, has to lead to the new text.
pub proof fn law_changes_are_read_back(
    t: Tables,
    root: Seq<char>,
    whole: Seq<char>,
    observed: ObservedView,
    recorded_at_ms: i64,
    context_id: i64,
    interval: i64,
)
    requires
        t.wf(),
        with_observed(t, root, whole, observed, recorded_at_ms, context_id, interval).1 is Ok,
        normalized(root, whole) is Ok,
        observed matches ObservedView::File(Some(text)) ==> patch_leads_to(
            t,
            normalized(root, whole)->Ok_0,
            text,
            context_id,
            interval,
        ),
    ensures
        follows_observed(
            t,
            with_observed(t, root, whole, observed, recorded_at_ms, context_id, interval).0,
            normalized(root, whole)->Ok_0,
            observed,
            recorded_at_ms,
            context_id,
        ),
{
    let path = normalized(root, whole)->Ok_0;
    match observed {
        ObservedView::File(Some(text)) => {
            lemma_found_changes_one_file(
                t,
                path,
                text,
                recorded_at_ms,
                context_id,
                interval,
            );
            if with_text(t, path, text, recorded_at_ms, context_id, interval)->Ok_0.1 {
                law_text_is_read_back(t, path, text, recorded_at_ms, context_id, interval);
            } else {
                law_known_text_is_read_back(
                    t,
                    path,
                    text,
                    recorded_at_ms,
                    context_id,
                    interval,
                );
            }
        },
        ObservedView::Missing => {
            lemma_missing_is_absent(t, path, recorded_at_ms, context_id);
        },
        _ => {},
    }
}

// ---------------------------------------------------------------------------
// What lies under a prefix
// ---------------------------------------------------------------------------

/// Whether a text holds none of the characters that a pattern gives a meaning to.
pub open spec fn is_plain(s: Seq<char>) -> bool {
    forall|i: int| 0 <= i < s.len() ==> s[i] != '%' && s[i] != '_' && s[i] != '\0'
}

/// Whether two characters are the same, or the same ASCII letter in upper and lower case.
pub open spec fn same_letter(a: char, b: char) -> bool {
    ||| a == b
    ||| 'A' <= a <= 'Z' && b as int == a as int + 32
    ||| 'A' <= b <= 'Z' && a as int == b as int + 32
}

/// Whether two characters stand for the same in a pattern: the same letter, or both one of
/// the codes that are read as the replacement character.
pub open spec fn same_sign(a: char, b: char) -> bool {
    same_letter(a, b) || (0xfffd <= a as int <= 0xffff && 0xfffd <= b as int <= 0xffff)
}

proof fn lemma_any_text_is_covered(text: Seq<char>)
    ensures
        covers(seq!['%'], text),
    decreases text.len(),
{
    if text.len() > 0 {
        lemma_any_text_is_covered(text.skip(1));
    } else {
        assert(seq!['%'].skip(1).len() == 0);
        assert(covers(seq!['%'].skip(1), text));
    }
}

proof fn lemma_same_sign(a: char, b: char)
    ensures
        (folded(a) == folded(b)) == same_sign(a, b),
{
    assert('A' as u32 == 65 && 'Z' as u32 == 90);
    assert(a as u32 == b as u32 ==> a == b);
    assert(('A' <= a <= 'Z') == (65 <= a as u32 <= 90));
    assert(('A' <= b <= 'Z') == (65 <= b as u32 <= 90));
    if same_letter(a, b) {
        assert(folded(a) == folded(b));
    }
    if folded(a) == folded(b) {
        assert(same_sign(a, b));
    }
}

proof fn lemma_plain_prefix(prefix: Seq<char>, text: Seq<char>)
    requires
        is_plain(prefix),
    ensures
        covers(prefix + seq!['%'], text) <==> text.len() >= prefix.len() && forall|i: int|
            0 <= i < prefix.len() ==> same_sign(#[trigger] prefix[i], text[i]),
    decreases prefix.len(),
{
    let pattern = prefix + seq!['%'];
    if prefix.len() == 0 {
        assert(pattern =~= seq!['%']);
        lemma_any_text_is_covered(text);
    } else if text.len() > 0 {
        let p = prefix.skip(1);
        let s = text.skip(1);
        assert forall|i: int| 0 <= i < p.len() implies p[i] != '%' && p[i] != '_' && p[i]
            != '\0' by {
            assert(p[i] == prefix[i + 1]);
        }
        lemma_plain_prefix(p, s);
        assert(pattern.skip(1) =~= p + seq!['%']);
        assert(pattern[0] == prefix[0]);
        lemma_same_sign(prefix[0], text[0]);
        if text.len() >= prefix.len() && forall|i: int|
            0 <= i < prefix.len() ==> same_sign(#[trigger] prefix[i], text[i]) {
            assert forall|i: int| 0 <= i < p.len() implies same_sign(#[trigger] p[i], s[i]) by {
                assert(same_sign(prefix[i + 1], text[i + 1]));
            }
            assert(same_sign(prefix[0], text[0]));
        }
        if covers(pattern, text) {
            assert forall|i: int| 0 <= i < prefix.len() implies same_sign(
                #[trigger] prefix[i],
                text[i],
            ) by {
                if i > 0 {
                    assert(same_sign(p[i - 1], s[i - 1]));
                }
            }
        }
    }
}

/// Where a prefix holds no wildcard, exactly the paths lie under it that begin with it,
/// ASCII letters in either case.
pub proof fn law_under_a_plain_prefix(path: Seq<char>, prefix: Seq<char>)
    requires
        is_plain(prefix),
        !path.contains('\0'),
    ensures
        under(path, prefix) <==> path.len() >= prefix.len() && forall|i: int|
            0 <= i < prefix.len() ==> same_sign(#[trigger] prefix[i], path[i]),
{
    let pattern = prefix + seq!['%'];
    lemma_position_of(path, '\0');
    if position_of(path, '\0') < path.len() {
        assert(path[position_of(path, '\0') as int] == '\0');
    }
    assert(before_nul(path) =~= path);
    assert forall|j: int| 0 <= j < pattern.len() implies pattern[j] != '\0' by {
        if j < prefix.len() {
            assert(pattern[j] == prefix[j]);
        }
    }
    lemma_position_unique(pattern, '\0', pattern.len() as int);
    assert(before_nul(pattern) =~= pattern);
    lemma_plain_prefix(prefix, path);
}

/// In a pattern `_` stands for exactly one character, and `%` for any text.
pub proof fn law_wildcards(pattern: Seq<char>, text: Seq<char>, c: char, any: Seq<char>)
    requires
        c != '\0',
        !any.contains('\0'),
    ensures
        like(pattern, text) ==> like(seq!['_'] + pattern, seq![c] + text),
        like(pattern, text) ==> like(seq!['%'] + pattern, any + text),
        !like(seq!['_'], Seq::empty()),
{
    let one = seq!['_'] + pattern;
    let more = seq!['%'] + pattern;
    lemma_cut(seq!['_'], pattern);
    lemma_cut(seq![c], text);
    lemma_cut(seq!['%'], pattern);
    lemma_cut(any, text);
    lemma_cut(seq!['_'], Seq::empty());
    assert(seq!['_'] + Seq::<char>::empty() =~= seq!['_']);
    assert(before_nul(Seq::<char>::empty()) =~= Seq::<char>::empty()) by {
        lemma_position_of(Seq::<char>::empty(), '\0');
    }
    if like(pattern, text) {
        let p = before_nul(pattern);
        let s = before_nul(text);
        assert((seq!['_'] + p).skip(1) =~= p);
        assert((seq![c] + s).skip(1) =~= s);
        lemma_any_text_in_front(p, any, s);
    }
}

proof fn lemma_any_text_in_front(pattern: Seq<char>, any: Seq<char>, text: Seq<char>)
    requires
        covers(pattern, text),
    ensures
        covers(seq!['%'] + pattern, any + text),
    decreases any.len(),
{
    let more = seq!['%'] + pattern;
    assert(more.skip(1) =~= pattern);
    if any.len() == 0 {
        assert(any + text =~= text);
    } else {
        lemma_any_text_in_front(pattern, any.skip(1), text);
        assert((any + text).skip(1) =~= any.skip(1) + text);
    }
}

proof fn lemma_cut(start: Seq<char>, rest: Seq<char>)
    requires
        !start.contains('\0'),
    ensures
        before_nul(start + rest) == start + before_nul(rest),
{
    let whole = start + rest;
    lemma_position_of(rest, '\0');
    let n = start.len() + position_of(rest, '\0');
    assert forall|j: int| 0 <= j < n implies whole[j] != '\0' by {
        if j < start.len() {
            assert(start.contains(start[j]));
            assert(whole[j] == start[j]);
        } else {
            assert(whole[j] == rest[j - start.len()]);
        }
    }
    lemma_position_unique(whole, '\0', n as int);
    assert(before_nul(whole) =~= start + before_nul(rest));
}

// ---------------------------------------------------------------------------
// Scans
// ---------------------------------------------------------------------------

/// A scan records the text of each file that it finds under the path of the file in the
/// project, counts it where that took a new revision, and notes that the path was seen. A
/// file that cannot be recorded changes nothing.
pub proof fn law_found_files_are_recorded(
    t: Tables,
    scan: ScanView,
    root: Seq<char>,
    file: Scanned,
    recorded_at_ms: i64,
    context_id: i64,
    interval: i64,
)
    ensures
        ({
            let (u, res) = with_scanned_file(
                t,
                scan,
                root,
                file,
                recorded_at_ms,
                context_id,
                interval,
            );
            match normalized(root, file.path) {
                Err(e) => u == t && res == Err::<ScanView, SnapshotError>(SnapshotError::Path(e)),
                Ok(path) => match with_text(
                    t,
                    path,
                    file.text,
                    recorded_at_ms,
                    context_id,
                    interval,
                ) {
                    Err(e) => u == t && res == Err::<ScanView, SnapshotError>(
                        SnapshotError::Store(e),
                    ),
                    Ok((v, added)) => {
                        &&& u == v
                        &&& res matches Ok(after)
                        &&& after.seen == scan.seen.push(path)
                        &&& added ==> after.changed == scan.changed + 1
                        &&& !added ==> after.changed == scan.changed
                    },
                },
            }
        }),
{
}

/// A scan goes on after each file that it recorded, and stops at the first one that it could
/// not record.
pub proof fn law_scans_go_file_by_file(
    t: Tables,
    root: Seq<char>,
    files: Seq<Scanned>,
    file: Scanned,
    recorded_at_ms: i64,
    context_id: i64,
    interval: i64,
)
    ensures
        ({
            let before = with_scanned_files(t, root, files, recorded_at_ms, context_id, interval);
            let after = with_scanned_files(
                t,
                root,
                files.push(file),
                recorded_at_ms,
                context_id,
                interval,
            );
            &&& before.1 is Err ==> after == before
            &&& before.1 matches Ok(scan) ==> after == with_scanned_file(
                before.0,
                scan,
                root,
                file,
                recorded_at_ms,
                context_id,
                interval,
            )
        }),
        ({
            let none = with_scanned_files(
                t,
                root,
                Seq::empty(),
                recorded_at_ms,
                context_id,
                interval,
            );
            &&& none.0 == t
            &&& none.1 matches Ok(scan)
            &&& scan.changed == 0
            &&& scan.seen.len() == 0
        }),
{
    assert(files.push(file).drop_last() =~= files);
}

/// What a scan did not see are exactly those of the paths that are not among the seen ones,
/// in their order.
pub proof fn law_unseen_paths(paths: Seq<Seq<char>>, seen: Seq<Seq<char>>)
    ensures
        unseen(paths, seen) == paths.filter(|path: Seq<char>| !seen.contains(path)),
    decreases paths.len(),
{
    reveal(Seq::filter);
    if paths.len() > 0 {
        law_unseen_paths(paths.drop_last(), seen);
    }
}

// ---------------------------------------------------------------------------
// Several ends
// ---------------------------------------------------------------------------

/// Ends are recorded one after the other, and those are counted that took a new revision. The
/// first that cannot be recorded is the last one tried.
pub proof fn law_ends_are_counted(
    t: Tables,
    paths: Seq<Seq<char>>,
    path: Seq<char>,
    recorded_at_ms: i64,
    context_id: i64,
)
    ensures
        with_deletes(t, Seq::empty(), recorded_at_ms, context_id) == (t, Ok::<nat, StoreError>(0)),
        ({
            let before = with_deletes(t, paths, recorded_at_ms, context_id);
            let after = with_deletes(t, paths.push(path), recorded_at_ms, context_id);
            match before.1 {
                Err(_) => after == before,
                Ok(n) => match with_delete(before.0, path, recorded_at_ms, context_id) {
                    Err(e) => after == (before.0, Err::<nat, StoreError>(e)),
                    Ok((u, true)) => after == (u, Ok::<nat, StoreError>(n + 1)),
                    Ok((u, false)) => after == (u, Ok::<nat, StoreError>(n)),
                },
            }
        }),
{
    assert(paths.push(path).drop_last() =~= paths);
}

/// The ends of all files under a prefix are recorded, unless the prefix has fifty thousand
/// bytes or more and the context has any file at all.
pub proof fn law_long_prefixes_are_refused(
    t: Tables,
    prefix: Seq<char>,
    recorded_at_ms: i64,
    context_id: i64,
)
    ensures
        ({
            let outcome = with_deletes_under(t, prefix, recorded_at_ms, context_id);
            let is_refused = byte_len(prefix) >= 50_000 && exists|i: int|
                0 <= i < t.files.len() && (#[trigger] t.files[i]).context_id == context_id;
            &&& is_refused ==> outcome == (t, Err::<nat, StoreError>(StoreError::PatternTooLong))
            &&& !is_refused ==> outcome == with_deletes(
                t,
                live_paths(t, context_id, prefix),
                recorded_at_ms,
                context_id,
            )
        }),
{
}

} // verus!
