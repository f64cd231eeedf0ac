//! Which names the built-in rules leave out of a timeline, whatever stands around them.
use vstd::prelude::*;
use vstd::string::*;
use vstd::utf8::*;

use crate::filter::{
    all_silent,
    below_root,
    builtin_ignores,
    file_text,
    gitignore_lines,
    gitignore_verdict,
    in_builtin_dir,
    is_builtin_dir,
    is_builtin_file,
    lemma_line_end_is,
    path_ignored,
    readable_lines,
    relative_parts,
    trackable_text,
    without_here,
    without_marks,
    ProjectFilter,
};
use crate::path::{
    body_parts,
    file_name,
    is_absolute,
    is_name,
    lemma_body_of_both,
    parts,
    parts_begin_with,
    PathPart,
};
use crate::places::law_a_name_adds_a_part;
use crate::snapshot::tracked_path;
use crate::text::{begins_with, finishes_with, holds_text, stands_at};

verus! {

// ---------------------------------------------------------------------------
// Files
// ---------------------------------------------------------------------------

/// The last part of a path below the project is that of the whole path.
proof fn lemma_last_part(root: Seq<char>, directory: Seq<char>, name: Seq<char>)
    requires
        is_name(name),
        directory.len() > 0,
        parts(directory + seq!['/'] + name) != parts(root),
    ensures
        ({
            let below = relative_parts(root, directory + seq!['/'] + name);
            &&& below.len() > 0
            &&& below.last() == PathPart::Name(name)
        }),
{
    let path = directory + seq!['/'] + name;
    law_a_name_adds_a_part(directory, name);
    if parts_begin_with(parts(path), parts(root)) {
        if parts(root).len() == parts(path).len() {
            assert(parts(path).take(parts(root).len() as int) =~= parts(path));
        }
    }
}

proof fn lemma_named_file_is_ignored(
    root: Seq<char>,
    lines: Seq<Seq<char>>,
    directory: Seq<char>,
    name: Seq<char>,
)
    requires
        is_name(name),
        is_builtin_file(name),
        directory.len() > 0,
        parts(directory + seq!['/'] + name) != parts(root),
    ensures
        path_ignored(root, lines, directory + seq!['/'] + name, false),
{
    let path = directory + seq!['/'] + name;
    lemma_last_part(root, directory, name);
    assert(file_name(relative_parts(root, path)) == Some(name));
    assert(builtin_ignores(relative_parts(root, path), false));
}

proof fn lemma_holds(a: Seq<char>, p: Seq<char>, b: Seq<char>)
    ensures
        holds_text(a + p + b, p),
        finishes_with(a + p, p),
        begins_with(p + b, p),
{
    let n = a + p + b;
    assert(n.subrange(a.len() as int, (a.len() + p.len()) as int) =~= p);
    assert(stands_at(n, p, a.len() as int));
    assert((a + p).skip(a.len() as int) =~= p);
    assert((p + b).take(p.len() as int) =~= p);
}

/// A file is left out whose name holds `secret` or `credential`, whatever stands before and
/// after it and wherever the file lies.
pub proof fn law_secrets_are_left_out(
    root: Seq<char>,
    lines: Seq<Seq<char>>,
    directory: Seq<char>,
    before: Seq<char>,
    word: Seq<char>,
    after: Seq<char>,
)
    requires
        word == "secret"@ || word == "credential"@,
        is_name(before + word + after),
        directory.len() > 0,
        parts(directory + seq!['/'] + (before + word + after)) != parts(root),
    ensures
        path_ignored(root, lines, directory + seq!['/'] + (before + word + after), false),
{
    lemma_holds(before, word, after);
    lemma_named_file_is_ignored(root, lines, directory, before + word + after);
}

/// A file is left out whose name ends as those of keys, certificates and files that editors
/// leave behind do, whatever stands before that.
pub proof fn law_endings_are_left_out(
    root: Seq<char>,
    lines: Seq<Seq<char>>,
    directory: Seq<char>,
    stem: Seq<char>,
    ending: Seq<char>,
)
    requires
        ending == ".pem"@ || ending == ".key"@ || ending == ".crt"@ || ending == ".p12"@ || ending
            == ".pfx"@ || ending == ".swp"@ || ending == ".swo"@ || ending == ".tmp"@ || ending
            == ".temp"@ || ending == "~"@,
        is_name(stem + ending),
        directory.len() > 0,
        parts(directory + seq!['/'] + (stem + ending)) != parts(root),
    ensures
        path_ignored(root, lines, directory + seq!['/'] + (stem + ending), false),
{
    lemma_holds(stem, ending, Seq::empty());
    lemma_named_file_is_ignored(root, lines, directory, stem + ending);
}

/// A file is left out that holds an environment, whatever it is for, or that an editor or
/// the system keeps beside others.
pub proof fn law_beginnings_are_left_out(
    root: Seq<char>,
    lines: Seq<Seq<char>>,
    directory: Seq<char>,
    name: Seq<char>,
    rest: Seq<char>,
)
    requires
        name == ".env"@ || name == ".env."@ + rest || name == ".#"@ + rest || name == ".DS_Store"@,
        is_name(name),
        directory.len() > 0,
        parts(directory + seq!['/'] + name) != parts(root),
    ensures
        path_ignored(root, lines, directory + seq!['/'] + name, false),
{
    lemma_holds(Seq::empty(), ".env."@, rest);
    lemma_holds(Seq::empty(), ".#"@, rest);
    lemma_named_file_is_ignored(root, lines, directory, name);
}

// ---------------------------------------------------------------------------
// Directories
// ---------------------------------------------------------------------------

/// Whether a directory of this name is left out with all that it holds.
pub open spec fn names_left_out_directory(name: Seq<char>) -> bool {
    name == ".timeline"@ || name == ".git"@ || name == "node_modules"@ || name == "dist"@ || name
        == "build"@ || name == ".next"@ || name == "target"@
}

/// What stands behind a separator adds parts behind those before it.
proof fn lemma_parts_go_on(directory: Seq<char>, rest: Seq<char>)
    requires
        directory.len() > 0,
        rest.len() > 0 ==> rest[0] == '/',
    ensures
        parts(directory + rest).len() >= parts(directory).len(),
        parts(directory + rest).take(parts(directory).len() as int) == parts(directory),
{
    let path = directory + rest;
    let n = parts(directory).len() as int;
    if rest.len() == 0 {
        assert(path =~= directory);
        assert(parts(path).take(n) =~= parts(directory));
    } else {
        let after = rest.skip(1);
        assert(path =~= directory + seq!['/'] + after);
        lemma_body_of_both(directory, after, true);
        assert(path[0] == directory[0]);
        assert(is_absolute(path) == is_absolute(directory));
        let more = body_parts(after, false);
        assert(parts(path) =~= parts(directory) + more);
        assert((parts(directory) + more).take(n) =~= parts(directory));
    }
}

/// All that lies in a directory of one of these names is left out, at any depth, and the
/// directory itself.
pub proof fn law_directories_are_left_out(
    root: Seq<char>,
    lines: Seq<Seq<char>>,
    above: Seq<char>,
    name: Seq<char>,
    rest: Seq<char>,
    is_dir: bool,
)
    requires
        names_left_out_directory(name),
        is_name(name),
        above.len() > 0,
        rest.len() > 0 ==> rest[0] == '/',
        parts_begin_with(parts(above), parts(root)) || !parts_begin_with(
            parts(above + seq!['/'] + name + rest),
            parts(root),
        ),
    ensures
        path_ignored(root, lines, above + seq!['/'] + name + rest, is_dir),
{
    let directory = above + seq!['/'] + name;
    let path = directory + rest;
    law_a_name_adds_a_part(above, name);
    let k = parts(above).len() as int;
    lemma_parts_go_on(directory, rest);
    assert(parts(directory) == parts(above).push(PathPart::Name(name)));
    assert(parts(path)[k] == parts(path).take(k + 1)[k]);
    assert(parts(path).take(k) =~= parts(path).take(k + 1).take(k));
    assert(parts(path).take(k) =~= parts(above));
    let below = relative_parts(root, path);
    let n = parts(root).len() as int;
    if parts_begin_with(parts(above), parts(root)) {
        assert(parts(path).take(n) =~= parts(above).take(n));
        assert(below[k - n] == PathPart::Name(name));
    } else {
        assert(below[k] == PathPart::Name(name));
    }
    assert(is_builtin_dir(name));
    assert(in_builtin_dir(below));
}

// ---------------------------------------------------------------------------
// What is kept
// ---------------------------------------------------------------------------

/// Whether a file of this name is left out, by what the name begins with, ends with or
/// holds.
pub open spec fn names_left_out_file(n: Seq<char>) -> bool {
    ||| n == ".env"@
    ||| n == ".DS_Store"@
    ||| exists|rest: Seq<char>| n == #[trigger] (".env."@ + rest)
    ||| exists|rest: Seq<char>| n == #[trigger] (".#"@ + rest)
    ||| exists|stem: Seq<char>| n == #[trigger] (stem + ".pem"@)
    ||| exists|stem: Seq<char>| n == #[trigger] (stem + ".key"@)
    ||| exists|stem: Seq<char>| n == #[trigger] (stem + ".crt"@)
    ||| exists|stem: Seq<char>| n == #[trigger] (stem + ".p12"@)
    ||| exists|stem: Seq<char>| n == #[trigger] (stem + ".pfx"@)
    ||| exists|stem: Seq<char>| n == #[trigger] (stem + ".swp"@)
    ||| exists|stem: Seq<char>| n == #[trigger] (stem + ".swo"@)
    ||| exists|stem: Seq<char>| n == #[trigger] (stem + ".tmp"@)
    ||| exists|stem: Seq<char>| n == #[trigger] (stem + ".temp"@)
    ||| exists|stem: Seq<char>| n == #[trigger] (stem + "~"@)
    ||| exists|a: Seq<char>, b: Seq<char>| n == #[trigger] (a + "credential"@ + b)
    ||| exists|a: Seq<char>, b: Seq<char>| n == #[trigger] (a + "secret"@ + b)
}

proof fn lemma_splits(n: Seq<char>, p: Seq<char>)
    ensures
        begins_with(n, p) ==> n == p + n.skip(p.len() as int),
        finishes_with(n, p) ==> n == n.take(n.len() - p.len()) + p,
        holds_text(n, p) ==> exists|a: Seq<char>, b: Seq<char>| n == #[trigger] (a + p + b),
{
    if begins_with(n, p) {
        assert(n =~= p + n.skip(p.len() as int));
    }
    if finishes_with(n, p) {
        assert(n =~= n.take(n.len() - p.len()) + p);
    }
    if holds_text(n, p) {
        let i = choose|i: int| 0 <= i && stands_at(n, p, i);
        let a = n.take(i);
        let b = n.skip(i + p.len());
        assert(n =~= a + p + b);
    }
}

/// The built-in rules leave out the files of those names and nothing else.
proof fn lemma_left_out_files(n: Seq<char>)
    ensures
        is_builtin_file(n) ==> names_left_out_file(n),
{
    lemma_splits(n, ".env."@);
    lemma_splits(n, ".#"@);
    lemma_splits(n, ".pem"@);
    lemma_splits(n, ".key"@);
    lemma_splits(n, ".crt"@);
    lemma_splits(n, ".p12"@);
    lemma_splits(n, ".pfx"@);
    lemma_splits(n, ".swp"@);
    lemma_splits(n, ".swo"@);
    lemma_splits(n, ".tmp"@);
    lemma_splits(n, ".temp"@);
    lemma_splits(n, "~"@);
    lemma_splits(n, "credential"@);
    lemma_splits(n, "secret"@);
}

/// No other file is left out: where no part of a path below the project names a directory
/// that is left out and its last part no file that is, the gitignore lines alone decide, and
/// where they say nothing the file is kept.
pub proof fn law_other_files_are_kept(
    root: Seq<char>,
    lines: Seq<Seq<char>>,
    path: Seq<char>,
    is_dir: bool,
)
    requires
        forall|i: int|
            0 <= i < parts(path).len() ==> !(#[trigger] parts(path)[i] matches PathPart::Name(n)
                && names_left_out_directory(n)),
        parts(path).len() > 0 && parts(path).last() is Name ==> is_dir || !names_left_out_file(
            parts(path).last()->Name_0,
        ),
    ensures
        path_ignored(root, lines, path, is_dir) ==> gitignore_verdict(root, lines, path, is_dir)
            && !all_silent(lines),
        parts(path) != parts(root) && !all_silent(lines) && parts(path).len() > 0
            && gitignore_verdict(root, lines, path, is_dir) ==> path_ignored(
            root,
            lines,
            path,
            is_dir,
        ),
{
    let below = relative_parts(root, path);
    let n = parts(root).len() as int;
    if in_builtin_dir(below) {
        let i = choose|i: int|
            0 <= i < below.len() && (#[trigger] below[i] matches PathPart::Name(name)
                && is_builtin_dir(name));
        if parts_begin_with(parts(path), parts(root)) {
            assert(parts(path)[i + n] == below[i]);
        } else {
            assert(parts(path)[i] == below[i]);
        }
    }
    if below.len() > 0 {
        assert(below.last() == parts(path).last());
        if below.last() is Name {
            lemma_left_out_files(below.last()->Name_0);
        }
    } else if parts_begin_with(parts(path), parts(root)) {
        assert(parts(path).take(n) =~= parts(path));
    }
}

/// The project directory itself is never ignored.
pub proof fn law_the_project_itself_is_entered(
    root: Seq<char>,
    lines: Seq<Seq<char>>,
    path: Seq<char>,
    is_dir: bool,
)
    requires
        parts(path) == parts(root),
    ensures
        !path_ignored(root, lines, path, is_dir),
{
    assert(parts(path).take(parts(root).len() as int) =~= parts(path));
}

// ---------------------------------------------------------------------------
// Contents
// ---------------------------------------------------------------------------

/// A text without NUL characters is kept as it is where its bytes are no more than the
/// limit; a file is left out that is larger, holds a zero byte, or is no UTF-8.
pub proof fn law_texts_are_kept(text: Seq<char>, bytes: Seq<u8>, max: u64)
    ensures
        encode_utf8(text).len() <= max && !encode_utf8(text).contains(0) ==> trackable_text(
            encode_utf8(text),
            max,
        ) == Some(text),
        bytes.len() > max ==> trackable_text(bytes, max) is None,
        (exists|i: int| 0 <= i < bytes.len() && bytes[i] == 0) ==> trackable_text(
            bytes,
            max,
        ) is None,
        !valid_utf8(bytes) ==> trackable_text(bytes, max) is None,
        trackable_text(bytes, max) matches Some(kept) ==> encode_utf8(kept) == bytes,
{
    encode_utf8_valid_utf8(text);
    encode_utf8_decode_utf8(text);
    if valid_utf8(bytes) {
        decode_utf8_encode_utf8(bytes);
    }
}

// ---------------------------------------------------------------------------
// The lines of a gitignore file
// ---------------------------------------------------------------------------

/// A file is read line by line: what stands before a line feed, or before a carriage return
/// and a line feed, is a line, and the rest is read in the same way. A last line needs no
/// line feed behind it. Reading ends at the first line that is no UTF-8.
pub proof fn law_lines_are_read_one_by_one(line: Seq<u8>, rest: Seq<u8>)
    requires
        !line.contains(10),
        line.len() > 0 ==> line.last() != 13,
    ensures
        valid_utf8(line) ==> {
            &&& readable_lines(line + seq![10u8] + rest) == seq![decode_utf8(line)]
                + readable_lines(rest)
            &&& readable_lines(line + seq![13u8, 10u8] + rest) == seq![decode_utf8(line)]
                + readable_lines(rest)
            &&& line.len() > 0 ==> readable_lines(line) == seq![decode_utf8(line)]
        },
        !valid_utf8(line) ==> {
            &&& readable_lines(line + seq![10u8] + rest) == Seq::<Seq<char>>::empty()
            &&& readable_lines(line) == Seq::<Seq<char>>::empty()
        },
        readable_lines(Seq::empty()) == Seq::<Seq<char>>::empty(),
{
    let n = line.len() as int;
    assert forall|j: int| 0 <= j < n implies line[j] != 10 by {
        assert(line.contains(line[j]));
    }
    let fed = line + seq![10u8] + rest;
    let returned = line + seq![13u8, 10u8] + rest;
    lemma_line_end_is(line, n);
    assert forall|j: int| 0 <= j < n implies fed[j] != 10 by {
        assert(fed[j] == line[j]);
    }
    lemma_line_end_is(fed, n);
    assert(fed.take(n) =~= line);
    assert(fed.skip(n + 1) =~= rest);
    assert forall|j: int| 0 <= j < n + 1 implies returned[j] != 10 by {
        if j < n {
            assert(returned[j] == line[j]);
        }
    }
    lemma_line_end_is(returned, n + 1);
    assert(returned.take(n + 1) =~= line.push(13u8));
    assert(line.push(13u8).drop_last() =~= line);
    assert(returned.skip(n + 2) =~= rest);
}

/// Byte order marks in front of a gitignore file are not part of its first line, and nothing
/// else is taken away.
pub proof fn law_byte_order_marks_are_dropped(s: Seq<char>)
    ensures
        without_marks(seq!['\u{feff}'] + s) == without_marks(s),
        s.len() > 0 && s[0] != '\u{feff}' ==> without_marks(s) == s,
        without_marks(Seq::empty()) == Seq::<char>::empty(),
{
    assert((seq!['\u{feff}'] + s).drop_first() =~= s);
}

/// All lines of a gitignore file but the first are taken as they stand.
pub proof fn law_later_lines_are_kept(bytes: Seq<u8>)
    ensures
        gitignore_lines(bytes).len() == readable_lines(bytes).len(),
        forall|i: int|
            0 < i < readable_lines(bytes).len() ==> #[trigger] gitignore_lines(bytes)[i]
                == readable_lines(bytes)[i],
        readable_lines(bytes).len() > 0 ==> gitignore_lines(bytes)[0] == without_marks(
            readable_lines(bytes)[0],
        ),
{
}

/// The text of a file is read exactly where the file is not ignored, is a file, and has no
/// more bytes than the limit, neither by its size nor by what it holds, no zero byte and
/// nothing but UTF-8; it is then the whole of it.
pub proof fn law_files_are_read_whole_or_not_at_all(
    is_ignored: bool,
    is_file: bool,
    size: u64,
    bytes: Seq<u8>,
    max: u64,
)
    ensures
        file_text(is_ignored, is_file, size, bytes, max) is Some <==> {
            &&& !is_ignored
            &&& is_file
            &&& size <= max
            &&& bytes.len() <= max
            &&& !bytes.contains(0)
            &&& valid_utf8(bytes)
        },
        file_text(is_ignored, is_file, size, bytes, max) matches Some(text) ==> encode_utf8(text)
            == bytes,
{
    if valid_utf8(bytes) {
        decode_utf8_encode_utf8(bytes);
    }
}

/// A path that changed is tracked exactly where it lies in the project directory and is not
/// ignored; a relative one is taken from that directory.
pub proof fn law_changed_paths(
    root: Seq<char>,
    path: Seq<char>,
    filter: &ProjectFilter,
    is_dir: bool,
)
    requires
        root.len() > 0,
        root.last() != '/',
    ensures
        ({
            let whole = if path.len() > 0 && path[0] == '/' {
                path
            } else {
                root + seq!['/'] + path
            };
            let is_tracked = parts_begin_with(parts(whole), parts(root)) && !path_ignored(
                filter.root(),
                filter.lines(),
                whole,
                is_dir,
            );
            &&& is_tracked ==> tracked_path(root, path, filter, is_dir) == Some(whole)
            &&& !is_tracked ==> tracked_path(root, path, filter, is_dir) is None
        }),
{
}

/// Of a path that is written below the project directory it can always be told whether it is
/// ignored, and so it can of a relative one.
pub proof fn law_paths_of_the_project_can_be_told(
    filter: &ProjectFilter,
    below: Seq<char>,
    is_dir: bool,
)
    requires
        is_absolute(filter.root()),
        below.len() > 0,
        below[0] != '/',
    ensures
        filter.can_tell(filter.root() + seq!['/'] + below, is_dir),
        below[0] != '.' ==> filter.can_tell(below, is_dir),
{
    let root = filter.root();
    let path = root + seq!['/'] + below;
    assert(path[0] == '/' && root[0] == '/');
    if path.len() >= 2 {
        assert(path.take(2)[0] == '/');
    }
    if root.len() >= 2 {
        assert(root.take(2)[0] == '/');
    }
    assert(without_here(path) == path && without_here(root) == root);
    assert(parts(root)[0] == PathPart::Root);
    assert(path[root.len() as int] == '/');
    assert(path.contains('/'));
    assert(path.take(root.len() as int) =~= root);
    assert(path.skip(root.len() as int) =~= seq!['/'] + below);
    assert((seq!['/'] + below).skip(1) =~= below);
    assert(below_root(root, path) == below);
    if below[0] != '.' {
        if below.len() >= 2 {
            assert(below.take(2)[0] == below[0]);
        }
        assert(without_here(below) == below);
        if begins_with(below, root) {
            assert(below.take(root.len() as int)[0] == below[0]);
        }
        assert(below_root(root, below) == below);
    }
}

} // verus!
