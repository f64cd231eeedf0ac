//! Where a project lies, and the context that it is in.
use vstd::prelude::*;
use vstd::utf8::*;

use crate::config::{
    checked_dir,
    database_name,
    first_marked,
    timeline_dir_of,
    total,
    ConfigError,
    ProjectPaths,
    TimelineMarks,
};
use crate::git::{
    detected,
    git_answer,
    git_fingerprint,
    git_label,
    git_runtime,
    local_fingerprint,
    local_runtime,
    short_commit,
    GitAnswers,
    GitContextView,
    GitError,
};
use crate::path::{
    ancestors_of,
    body_parts,
    body_spans,
    is_absolute,
    is_name,
    joined_path,
    lemma_body_of_both,
    lemma_spans_match,
    parent,
    parts,
    piece_parts,
    piece_spans,
    shown_path,
    spans,
    PathPart,
};
use crate::places::law_a_name_adds_a_part;
use crate::text::{
    is_space,
    joined,
    lemma_position_of,
    lemma_position_unique,
    opt_text,
    position_of,
    trimmed,
    trimmed_end,
};

verus! {

// ---------------------------------------------------------------------------
// Directories above a path
// ---------------------------------------------------------------------------

/// What stands before the end of a part are the parts up to it.
proof fn lemma_body_up_to(s: Seq<char>, first: bool, at: int, j: int)
    requires
        0 <= j < body_spans(s, first, at).len(),
    ensures
        ({
            let k = body_spans(s, first, at)[j].1 - at;
            &&& 0 < k <= s.len()
            &&& j < body_parts(s, first).len()
            &&& body_parts(s.take(k), first) == body_parts(s, first).take(j + 1)
        }),
    decreases s.len(),
{
    let i = position_of(s, '/') as int;
    lemma_position_of(s, '/');
    let k = body_spans(s, first, at)[j].1 - at;
    if i == s.len() {
        assert(s.take(k) =~= s);
        assert(body_parts(s, first).take(j + 1) =~= body_parts(s, first));
    } else {
        let piece = s.take(i);
        let tail = s.skip(i + 1);
        let p = piece_spans(piece, first, at).len() as int;
        if j < p {
            assert(k == i);
            lemma_position_of(piece, '/');
            if position_of(piece, '/') < piece.len() {
                assert(piece[position_of(piece, '/') as int] == s[position_of(piece, '/') as int]);
            }
            assert(body_parts(s, first).take(j + 1) =~= piece_parts(piece, first));
        } else {
            lemma_body_up_to(tail, false, at + i + 1, j - p);
            let inner = k - i - 1;
            let cut = s.take(k);
            assert forall|x: int| 0 <= x < i implies cut[x] != '/' by {
                assert(cut[x] == s[x]);
            }
            lemma_position_unique(cut, '/', i);
            assert(cut.take(i) =~= piece);
            assert(cut.skip(i + 1) =~= tail.take(inner));
            assert(body_parts(cut, first) =~= body_parts(s, first).take(j + 1));
        }
    }
}

proof fn lemma_up_to(s: Seq<char>, j: int)
    requires
        0 <= j < spans(s).len(),
    ensures
        0 < spans(s)[j].1 <= s.len(),
        parts(s.take(spans(s)[j].1)) == parts(s).take(j + 1),
{
    lemma_spans_match(s);
    let k = spans(s)[j].1;
    if is_absolute(s) {
        if j == 0 {
            let cut = s.take(1);
            lemma_position_unique(cut, '/', 0);
            assert(cut.take(0) =~= Seq::<char>::empty());
            assert(cut.skip(1) =~= Seq::<char>::empty());
            assert(body_parts(cut.skip(1), false) =~= Seq::<PathPart>::empty());
            assert(body_parts(cut, true) =~= Seq::<PathPart>::empty());
            assert(parts(cut) =~= parts(s).take(1));
        } else {
            lemma_body_up_to(s, true, 0, j - 1);
            assert(s.take(k)[0] == s[0]);
            assert(parts(s.take(k)) =~= parts(s).take(j + 1));
        }
    } else {
        lemma_body_up_to(s, true, 0, j);
        assert(s.take(k)[0] == s[0]);
    }
}

/// The directory that a path lies in is written as the path is, and has all its parts but
/// the last. Only a path without parts and the root of the file system lie in none.
pub proof fn law_a_path_lies_in_its_parent(s: Seq<char>)
    ensures
        match parent(s) {
            Some(p) => {
                &&& parts(p) == parts(s).drop_last()
                &&& p.len() < s.len()
                &&& p == s.take(p.len() as int)
            },
            None => parts(s).len() == 0 || parts(s).last() == PathPart::Root,
        },
        parts(s).len() > 0 && parts(s).last() != PathPart::Root ==> parent(s) is Some,
{
    let n = parts(s).len() as int;
    lemma_spans_match(s);
    if n > 0 && parts(s).last() != PathPart::Root {
        if n == 1 {
            assert(parts(Seq::<char>::empty()) =~= Seq::<PathPart>::empty());
            assert(parts(s).drop_last() =~= Seq::<PathPart>::empty());
            assert(s.take(0) =~= Seq::<char>::empty());
            if s.len() == 0 {
                assert(parts(s).len() == 0);
            }
        } else {
            let p = s.take(spans(s)[n - 2].1);
            lemma_up_to(s, n - 2);
            assert(parts(s).take(n - 1) =~= parts(s).drop_last());
            if p.len() == s.len() {
                assert(p =~= s);
            }
        }
    }
}

/// A name in a directory has that directory as its parent.
pub proof fn law_names_lie_in_their_directory(dir: Seq<char>, name: Seq<char>)
    requires
        dir.len() > 0,
        is_name(name),
    ensures
        parent(dir + seq!['/'] + name) is Some,
        parts(parent(dir + seq!['/'] + name)->Some_0) == parts(dir),
{
    let s = dir + seq!['/'] + name;
    law_a_name_adds_a_part(dir, name);
    law_a_path_lies_in_its_parent(s);
    assert(parts(s).drop_last() =~= parts(dir));
}

/// Above a path stand the path itself, then each time the directory that the one before lies
/// in, until one lies in none.
pub proof fn law_directories_above_a_path(s: Seq<char>)
    ensures
        ({
            let above = ancestors_of(s);
            &&& above.len() > 0
            &&& above[0] == s
            &&& forall|i: int|
                0 <= i < above.len() - 1 ==> parent(#[trigger] above[i]) == Some(above[i + 1])
            &&& parent(above.last()) is None
        }),
    decreases s.len(),
{
    law_a_path_lies_in_its_parent(s);
    let above = ancestors_of(s);
    match parent(s) {
        Some(p) => {
            law_directories_above_a_path(p);
            let rest = ancestors_of(p);
            assert(above =~= seq![s] + rest);
            assert forall|i: int| 0 <= i < above.len() - 1 implies parent(#[trigger] above[i])
                == Some(above[i + 1]) by {
                assert(above[i + 1] == rest[i]);
                if i > 0 {
                    assert(above[i] == rest[i - 1]);
                    assert(parent(rest[i - 1]) == Some(rest[i - 1 + 1]));
                }
            }
            assert(above.last() == rest.last());
        },
        None => {},
    }
}

// ---------------------------------------------------------------------------
// Projects
// ---------------------------------------------------------------------------

/// The directory of a project is the nearest one that holds a timeline.
pub proof fn law_the_nearest_timeline_is_found(marks: Seq<TimelineMarks>)
    ensures
        match first_marked(marks) {
            Some(i) => {
                &&& i < marks.len()
                &&& marks[i as int].has_timeline
                &&& forall|j: int| 0 <= j < i ==> !(#[trigger] marks[j]).has_timeline
            },
            None => forall|j: int| 0 <= j < marks.len() ==> !(#[trigger] marks[j]).has_timeline,
        },
    decreases marks.len(),
{
    if marks.len() > 0 {
        let rest = marks.drop_last();
        law_the_nearest_timeline_is_found(rest);
        assert forall|j: int| 0 <= j < marks.len() - 1 implies #[trigger] marks[j] == rest[j] by {}
        match first_marked(rest) {
            Some(i) => {
                assert(rest[i as int] == marks[i as int]);
                assert forall|j: int| 0 <= j < i implies !(#[trigger] marks[j]).has_timeline by {
                    assert(rest[j] == marks[j]);
                }
            },
            None => {
                assert forall|j: int| 0 <= j < marks.len() - 1 implies !(
                #[trigger] marks[j]).has_timeline by {
                    assert(rest[j] == marks[j]);
                }
            },
        }
    }
}

/// A project directory has to be there and to be a directory; what fails is told apart.
pub proof fn law_project_directories_are_checked(exists: bool, is_dir: bool)
    ensures
        checked_dir(exists, is_dir) is Ok <==> exists && is_dir,
        checked_dir(exists, is_dir) == Err::<(), ConfigError>(ConfigError::Missing) <==> !exists,
        checked_dir(exists, is_dir) == Err::<(), ConfigError>(ConfigError::NotADirectory) <==> exists
            && !is_dir,
{
}

/// The database of a project lies in the `.timeline` directory of its root. It has its old
/// name only where a database of that name is there and none of the new name.
pub proof fn law_databases_lie_in_the_timeline(
    paths: ProjectPaths,
    root: Seq<char>,
    has_database: bool,
    has_legacy_database: bool,
)
    requires
        root.len() > 0,
        root.last() != '/',
        paths.are_of(root, database_name(has_database, has_legacy_database)),
    ensures
        paths.root@ == root,
        paths.timeline_dir@ == root + "/.timeline"@,
        has_database || !has_legacy_database ==> paths.database_path@ == root
            + "/.timeline/kairos.db"@,
        !has_database && has_legacy_database ==> paths.database_path@ == root
            + "/.timeline/keiros.db"@,
{
    reveal_strlit(".timeline");
    reveal_strlit("/.timeline");
    reveal_strlit("kairos.db");
    reveal_strlit("keiros.db");
    reveal_strlit("/.timeline/kairos.db");
    reveal_strlit("/.timeline/keiros.db");
    let dir = timeline_dir_of(root);
    assert(dir =~= root + "/.timeline"@);
    assert(dir.last() == 'e');
    assert(joined_path(dir, "kairos.db"@) =~= root + "/.timeline/kairos.db"@);
    assert(joined_path(dir, "keiros.db"@) =~= root + "/.timeline/keiros.db"@);
}

/// The size of several files is the sum of theirs, however they are taken together.
pub proof fn law_sizes_add_up(a: Seq<u64>, b: Seq<u64>, size: u64)
    ensures
        total(seq![size]) == size,
        total(a + b) == total(a) + total(b),
    decreases b.len(),
{
    assert(seq![size].drop_last() =~= Seq::<u64>::empty());
    assert(total(Seq::<u64>::empty()) == 0);
    if b.len() > 0 {
        law_sizes_add_up(a, b.drop_last(), size);
        assert((a + b).drop_last() =~= a + b.drop_last());
        assert((a + b).last() == b.last());
    } else {
        assert(a + b =~= a);
    }
}

// ---------------------------------------------------------------------------
// Paths as they are shown
// ---------------------------------------------------------------------------

proof fn lemma_spans_of_both(a: Seq<char>, b: Seq<char>, first: bool, at: int)
    ensures
        body_spans(a + seq!['/'] + b, first, at) == body_spans(a, first, at) + body_spans(
            b,
            false,
            at + a.len() + 1,
        ),
    decreases a.len(),
{
    let whole = a + seq!['/'] + b;
    let i = position_of(a, '/') as int;
    lemma_position_of(a, '/');
    assert forall|j: int| 0 <= j < i implies whole[j] != '/' by {
        assert(whole[j] == a[j]);
    }
    assert(whole[i] == '/');
    lemma_position_unique(whole, '/', i);
    assert(whole.take(i) =~= a.take(i));
    if i == a.len() {
        assert(a.take(i) =~= a);
        assert(whole.skip(i + 1) =~= b);
    } else {
        assert(whole.skip(i + 1) =~= a.skip(i + 1) + seq!['/'] + b);
        lemma_spans_of_both(a.skip(i + 1), b, false, at + i + 1);
        assert(body_spans(whole, first, at) =~= body_spans(a, first, at) + body_spans(
            b,
            false,
            at + a.len() + 1,
        ));
    }
}

proof fn lemma_spans_of_names(ns: Seq<Seq<char>>, at: int)
    requires
        ns.len() > 0,
        forall|i: int| 0 <= i < ns.len() ==> is_name(#[trigger] ns[i]),
    ensures
        ({
            let s = joined(ns, seq!['/']);
            let found = body_spans(s, false, at);
            &&& found.len() == ns.len()
            &&& found[0].0 == at
            &&& found.last().1 == at + s.len()
        }),
    decreases ns.len(),
{
    let s = joined(ns, seq!['/']);
    let name = ns.last();
    assert(is_name(ns[ns.len() - 1]));
    lemma_position_unique(name, '/', name.len() as int);
    if ns.len() > 1 {
        let before = ns.drop_last();
        assert forall|i: int| 0 <= i < before.len() implies is_name(#[trigger] before[i]) by {
            assert(before[i] == ns[i]);
        }
        lemma_spans_of_names(before, at);
        let t = joined(before, seq!['/']);
        lemma_spans_of_both(t, name, false, at);
    }
}

/// A file of a project is shown by its path below the project.
pub proof fn law_files_are_shown_from_the_project_on(root: Seq<char>, ns: Seq<Seq<char>>)
    requires
        root.len() > 0,
        parts(root).len() > 0,
        ns.len() > 0,
        forall|i: int| 0 <= i < ns.len() ==> is_name(#[trigger] ns[i]),
    ensures
        shown_path(root, root + seq!['/'] + joined(ns, seq!['/'])) == joined(ns, seq!['/']),
{
    let below = joined(ns, seq!['/']);
    let path = root + seq!['/'] + below;
    let count = parts(root).len() as int;
    lemma_spans_of_both(root, below, true, 0);
    lemma_body_of_both(root, below, true);
    lemma_spans_of_names(ns, root.len() as int + 1);
    lemma_spans_match(root);
    lemma_spans_match(path);
    assert(path[0] == root[0]);
    assert(spans(path) =~= spans(root) + body_spans(below, false, root.len() as int + 1));
    assert(parts(path) =~= parts(root) + body_parts(below, false));
    assert(parts(path).take(count) =~= parts(root));
    assert(path.subrange(spans(path)[count].0, spans(path).last().1) =~= below);
}

/// A path outside a project is shown whole.
pub proof fn law_other_files_are_shown_whole(root: Seq<char>, path: Seq<char>)
    requires
        parts(path).len() < parts(root).len() || parts(path).take(parts(root).len() as int)
            != parts(root),
    ensures
        shown_path(root, path) == path,
{
}

// ---------------------------------------------------------------------------
// Git
// ---------------------------------------------------------------------------

/// What Git prints is taken without the line end behind it, and only where Git succeeded
/// and printed anything.
pub proof fn law_answers_of_git(text: Seq<char>, printed: Seq<u8>)
    ensures
        git_answer(false, printed) == Ok::<Option<Seq<char>>, GitError>(None),
        !valid_utf8(printed) ==> git_answer(true, printed) == Err::<Option<Seq<char>>, GitError>(
            GitError::NotUtf8,
        ),
        text.len() > 0 && !is_space(text[0]) && !is_space(text.last()) ==> git_answer(
            true,
            encode_utf8(text.push('\n')),
        ) == Ok::<Option<Seq<char>>, GitError>(Some(text)),
        git_answer(true, encode_utf8(seq!['\n'])) == Ok::<Option<Seq<char>>, GitError>(None),
        git_answer(true, encode_utf8(Seq::empty())) == Ok::<Option<Seq<char>>, GitError>(None),
{
    encode_utf8_valid_utf8(text.push('\n'));
    encode_utf8_decode_utf8(text.push('\n'));
    encode_utf8_valid_utf8(seq!['\n']);
    encode_utf8_decode_utf8(seq!['\n']);
    encode_utf8_valid_utf8(Seq::empty());
    encode_utf8_decode_utf8(Seq::empty());
    assert(is_space('\n'));
    assert(seq!['\n'].drop_first() =~= Seq::<char>::empty());
    assert(trimmed(seq!['\n']).len() == 0) by {
        reveal_with_fuel(crate::text::trimmed_start, 2);
    }
    if text.len() > 0 && !is_space(text[0]) && !is_space(text.last()) {
        let s = text.push('\n');
        assert(s[0] == text[0]);
        assert(s.drop_last() =~= text);
        assert(trimmed_end(s) == trimmed_end(text));
    }
}

/// A project is in a Git context exactly where Git says that it lies in a worktree. The
/// context is what Git says of it, and its head is detached where there is a commit and no
/// branch. It is an error if Git does not say where the worktree or the common directory is.
pub proof fn law_contexts_are_as_git_says(a: GitAnswers)
    ensures
        opt_text(a.inside_worktree) != Some("true"@) <==> detected(a) == Ok::<
            Option<GitContextView>,
            GitError,
        >(None),
        detected(a) matches Ok(Some(git)) ==> {
            &&& opt_text(a.inside_worktree) == Some("true"@)
            &&& opt_text(a.worktree_root) == Some(git.worktree_root)
            &&& opt_text(a.common_git_dir) == Some(git.common_git_dir)
            &&& opt_text(a.branch_name) == git.branch_name
            &&& opt_text(a.head_commit) == git.head_commit
            &&& git.detached_head <==> (git.branch_name is None && git.head_commit is Some)
        },
        detected(a) == Err::<Option<GitContextView>, GitError>(GitError::NoWorktree) <==> opt_text(
            a.inside_worktree,
        ) == Some("true"@) && a.worktree_root is None,
        detected(a) == Err::<Option<GitContextView>, GitError>(GitError::NoCommonDir) <==> opt_text(
            a.inside_worktree,
        ) == Some("true"@) && a.worktree_root is Some && a.common_git_dir is None,
        detected(a) != Err::<Option<GitContextView>, GitError>(GitError::NotUtf8),
{
}

/// A commit is shown by its first twelve characters.
pub proof fn law_commits_are_shortened(head: Seq<char>, rest: Seq<char>)
    ensures
        head.len() <= 12 ==> short_commit(head) == head,
        head.len() == 12 ==> short_commit(head + rest) == head,
{
    assert(head.len() == 12 ==> (head + rest).take(12) =~= head);
}

/// A context is shown by its branch, if it has one, and the start of its commit, if there is
/// one.
pub proof fn law_labels_of_contexts(git: GitContextView, branch: Seq<char>, head: Seq<char>)
    requires
        head.len() <= 12,
    ensures
        git.branch_name == Some(branch) && git.head_commit is None ==> git_label(git) == branch,
        git.branch_name == Some(branch) && git.head_commit == Some(head) ==> git_label(git)
            == branch + " @ "@ + head,
        git.branch_name is None && git.head_commit == Some(head) ==> git_label(git)
            == "detached @ "@ + head,
        git.branch_name is None && git.head_commit is None ==> git_label(git) == "detached"@,
{
    reveal_strlit("detached");
    reveal_strlit(" @ ");
    reveal_strlit("detached @ ");
    assert("detached"@ + " @ "@ =~= "detached @ "@);
}

/// A project in Git is recorded under the root of its worktree, and any other under its own
/// directory; the two never share a context.
pub proof fn law_contexts_of_projects(git: GitContextView, root: Seq<char>)
    ensures
        git_runtime(git).project_root == git.worktree_root,
        git_runtime(git).git == Some(git),
        local_runtime(root).project_root == root,
        local_runtime(root).git is None,
        git_runtime(git).kind != local_runtime(root).kind,
        git_runtime(git).fingerprint != local_runtime(root).fingerprint,
{
    crate::git::law_fingerprints_tell_projects_apart(root, root, git);
}

/// A context is stored under a text that lists what tells it apart: the worktree, the common
/// directory, the branch, the commit and whether the head is detached, or the directory of a
/// project without Git. What is not known is a dash.
pub proof fn law_fingerprints_list_their_fields(
    git: GitContextView,
    branch: Seq<char>,
    head: Seq<char>,
    root: Seq<char>,
)
    ensures
        git.branch_name == Some(branch) && git.head_commit == Some(head) && !git.detached_head
            ==> git_fingerprint(git) == "git|worktree="@ + git.worktree_root + "|common="@
            + git.common_git_dir + "|branch="@ + branch + "|head="@ + head + "|detached="@
            + "false"@,
        git.branch_name is None && git.head_commit == Some(head) && git.detached_head
            ==> git_fingerprint(git) == "git|worktree="@ + git.worktree_root + "|common="@
            + git.common_git_dir + "|branch="@ + "-"@ + "|head="@ + head + "|detached="@ + "true"@,
        git.branch_name == Some(branch) && git.head_commit is None && !git.detached_head
            ==> git_fingerprint(git) == "git|worktree="@ + git.worktree_root + "|common="@
            + git.common_git_dir + "|branch="@ + branch + "|head="@ + "-"@ + "|detached="@
            + "false"@,
        local_fingerprint(root) == "local|root="@ + root,
{
}

} // verus!
