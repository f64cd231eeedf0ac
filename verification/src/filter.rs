//! Which files of a project are tracked.
use ignore::gitignore::{Gitignore, GitignoreBuilder};
use vstd::prelude::*;
use vstd::string::*;
use vstd::utf8::*;

use crate::path::{
    file_name,
    is_absolute,
    part_views,
    parts,
    parts_begin_with,
    parts_of,
    path_is_absolute,
    starts_under,
    Part,
    PathPart,
};
use crate::text::{
    begins_with,
    chars_of,
    finishes_with,
    holds_text,
    is_space,
    opt_text,
    same_text,
    text_begins_with,
    text_finishes_with,
    text_from_utf8,
    text_holds,
    text_of,
    texts,
};

verus! {

// ---------------------------------------------------------------------------
// The gitignore matcher
// ---------------------------------------------------------------------------

/// A matcher for the globs of a gitignore file.
#[verifier::external_type_specification]
#[verifier::external_body]
pub struct ExGitignore(ignore::gitignore::Gitignore);

/// A matcher that is being put together.
#[verifier::external_type_specification]
#[verifier::external_body]
pub struct ExGitignoreBuilder(ignore::gitignore::GitignoreBuilder);

/// What keeps a matcher from being made.
#[verifier::external_type_specification]
#[verifier::external_body]
pub struct ExIgnoreError(ignore::Error);

/// The text of the directory that was handed in when a builder was made, as it was written.
/// It is no field of the builder, which keeps the directory without a leading `./`.
pub uninterp spec fn builder_root(b: GitignoreBuilder) -> Seq<char>;

/// The lines that were handed to a builder, in order, whether it made a glob of them or
/// not. They are no field of the builder, which keeps no comments and no blank lines.
pub uninterp spec fn builder_lines(b: GitignoreBuilder) -> Seq<Seq<char>>;

/// The text of the directory that was handed to the builder of a matcher, carried over to
/// it. It is no field of the matcher: one without globs keeps no directory.
pub uninterp spec fn matcher_root(g: Gitignore) -> Seq<char>;

/// The lines that were handed to the builder of a matcher, in order, carried over to it.
/// They are no field of the matcher, which keeps the globs that were made of them.
pub uninterp spec fn matcher_lines(g: Gitignore) -> Seq<Seq<char>>;

/// Whether a matcher holds no glob. A line makes none where it says nothing, or where it
/// cannot be read as a glob.
pub uninterp spec fn matcher_is_empty(g: Gitignore) -> bool;

/// Whether a line of a gitignore file says nothing: a comment, or white space alone.
pub open spec fn is_silent(line: Seq<char>) -> bool {
    ||| line.len() > 0 && line[0] == '#'
    ||| forall|i: int| 0 <= i < line.len() ==> is_space(#[trigger] line[i])
}

/// Whether no line says anything.
pub open spec fn all_silent(lines: Seq<Seq<char>>) -> bool {
    forall|i: int| 0 <= i < lines.len() ==> is_silent(#[trigger] lines[i])
}

/// Whether `GitignoreBuilder::build` makes a matcher from these lines.
pub uninterp spec fn gitignore_builds(lines: Seq<Seq<char>>) -> bool;

/// What `Gitignore::matched_path_or_any_parents` says of a path: whether it, or the
/// nearest of its parents that some line speaks of, is to be ignored.
pub uninterp spec fn gitignore_verdict(
    root: Seq<char>,
    lines: Seq<Seq<char>>,
    path: Seq<char>,
    is_dir: bool,
) -> bool;

/// `GitignoreBuilder::new`: a builder for a directory, without lines.
#[verifier::external_body]
fn new_builder(root: &str) -> (b: GitignoreBuilder)
    ensures
        builder_root(b) == root@,
        builder_lines(b) == Seq::<Seq<char>>::empty(),
{
    GitignoreBuilder::new(root)
}

/// `GitignoreBuilder::add_line`: gives one line to a builder. A line that is no glob is
/// passed over; whether it was is not told.
#[verifier::external_body]
fn add_line(b: &mut GitignoreBuilder, line: &str)
    ensures
        builder_root(*final(b)) == builder_root(*old(b)),
        builder_lines(*final(b)) == builder_lines(*old(b)).push(line@),
{
    let _ = b.add_line(None, line);
}

/// `GitignoreBuilder::build`: a matcher from the lines that the builder was given. It
/// fails by the lines alone, and never where no line says anything: it has no globs.
#[verifier::external_body]
fn build_matcher(b: &GitignoreBuilder) -> (res: Result<Gitignore, ignore::Error>)
    ensures
        match res {
            Ok(g) => {
                &&& gitignore_builds(builder_lines(*b))
                &&& matcher_root(g) == builder_root(*b)
                &&& matcher_lines(g) == builder_lines(*b)
            },
            Err(_) => !gitignore_builds(builder_lines(*b)) && !all_silent(builder_lines(*b)),
        },
{
    b.build()
}

/// `Gitignore::is_empty`. Where no line says anything, a matcher holds no glob.
#[verifier::external_body]
fn holds_no_glob(g: &Gitignore) -> (r: bool)
    ensures
        r == matcher_is_empty(*g),
        all_silent(matcher_lines(*g)) ==> r,
{
    g.is_empty()
}

/// A path without a leading `./`.
pub open spec fn without_here(path: Seq<char>) -> Seq<char> {
    if begins_with(path, seq!['.', '/']) {
        path.skip(2)
    } else {
        path
    }
}

/// A path as a matcher for a directory reads it: without a leading `./`, and without the
/// directory and the separator after it, compared character by character. A bare file
/// name stays as it is, and so does every path where the directory is `.`.
pub open spec fn below_root(root: Seq<char>, path: Seq<char>) -> Seq<char> {
    let base = without_here(root);
    let p = without_here(path);
    if parts(base) != seq![PathPart::Here] && p.contains('/') && begins_with(p, base) {
        let rest = p.skip(base.len() as int);
        if is_absolute(rest) {
            rest.skip(1)
        } else {
            rest
        }
    } else {
        p
    }
}

/// `Gitignore::matched_path_or_any_parents` and `Match::is_ignore`. A matcher without globs
/// ignores nothing. One with globs panics on a path that still starts at the root of the
/// file system once the directory is taken off it, so such a path is left out there.
/// The verdict depends on the directory, the lines, the path and whether it is a
/// directory.
#[verifier::external_body]
fn matcher_ignores(g: &Gitignore, path: &str, is_dir: bool) -> (r: bool)
    requires
        matcher_is_empty(*g) || !is_absolute(below_root(matcher_root(*g), path@)),
    ensures
        r == gitignore_verdict(matcher_root(*g), matcher_lines(*g), path@, is_dir),
        matcher_is_empty(*g) ==> !r,
{
    g.matched_path_or_any_parents(path, is_dir).is_ignore()
}

// ---------------------------------------------------------------------------
// Lines of a gitignore file
// ---------------------------------------------------------------------------

/// The position of the first line feed, or the length where there is none.
pub open spec fn line_end(bytes: Seq<u8>) -> nat
    decreases bytes.len(),
{
    if bytes.len() == 0 || bytes[0] == 10 {
        0
    } else {
        1 + line_end(bytes.drop_first())
    }
}

proof fn lemma_line_end(bytes: Seq<u8>)
    ensures
        line_end(bytes) <= bytes.len(),
        line_end(bytes) < bytes.len() ==> bytes[line_end(bytes) as int] == 10,
        forall|j: int| 0 <= j < line_end(bytes) ==> bytes[j] != 10,
    decreases bytes.len(),
{
    if bytes.len() > 0 && bytes[0] != 10 {
        lemma_line_end(bytes.drop_first());
        assert forall|j: int| 0 <= j < line_end(bytes) implies bytes[j] != 10 by {
            if j > 0 {
                assert(bytes.drop_first()[j - 1] == bytes[j]);
            }
        }
    }
}

pub proof fn lemma_line_end_is(bytes: Seq<u8>, i: int)
    requires
        0 <= i <= bytes.len(),
        forall|j: int| 0 <= j < i ==> bytes[j] != 10,
        i < bytes.len() ==> bytes[i] == 10,
    ensures
        line_end(bytes) == i,
{
    lemma_line_end(bytes);
    let p = line_end(bytes) as int;
    if p < i {
        assert(bytes[p] != 10);
    }
}

/// A line without the carriage return that ends it.
pub open spec fn without_return_byte(line: Seq<u8>) -> Seq<u8> {
    if line.len() > 0 && line.last() == 13 {
        line.drop_last()
    } else {
        line
    }
}

/// The lines of a file up to the first one that is not UTF-8.
pub open spec fn readable_lines(bytes: Seq<u8>) -> Seq<Seq<char>>
    decreases bytes.len(),
    via readable_lines_decreases
{
    let i = line_end(bytes) as int;
    if bytes.len() == 0 {
        Seq::empty()
    } else if i == bytes.len() {
        if valid_utf8(bytes) {
            seq![decode_utf8(bytes)]
        } else {
            Seq::empty()
        }
    } else {
        let line = without_return_byte(bytes.take(i));
        if valid_utf8(line) {
            seq![decode_utf8(line)] + readable_lines(bytes.skip(i + 1))
        } else {
            Seq::empty()
        }
    }
}

#[via_fn]
proof fn readable_lines_decreases(bytes: Seq<u8>) {
    lemma_line_end(bytes);
}

/// A text without the byte order marks that start it.
pub open spec fn without_marks(s: Seq<char>) -> Seq<char>
    decreases s.len(),
{
    if s.len() > 0 && s[0] == '\u{feff}' {
        without_marks(s.drop_first())
    } else {
        s
    }
}

/// The lines of a gitignore file, without byte order marks in front.
pub open spec fn gitignore_lines(bytes: Seq<u8>) -> Seq<Seq<char>> {
    let lines = readable_lines(bytes);
    if lines.len() == 0 {
        lines
    } else {
        lines.update(0, without_marks(lines[0]))
    }
}

/// The lines of a project's gitignore file, where it has one.
pub open spec fn project_lines(gitignore: Option<Vec<u8>>) -> Seq<Seq<char>> {
    match gitignore {
        Some(bytes) => gitignore_lines(bytes@),
        None => Seq::empty(),
    }
}

fn drop_marks(s: &str) -> (res: String)
    ensures
        res@ == without_marks(s@),
{
    let v = chars_of(s);
    let mut i: usize = 0;
    assert(v@.skip(0) =~= v@);
    while i < v.len() && v[i] == '\u{feff}'
        invariant
            i <= v@.len(),
            without_marks(v@.skip(i as int)) == without_marks(v@),
        decreases v@.len() - i,
    {
        assert(v@.skip(i as int).drop_first() =~= v@.skip(i + 1));
        i += 1;
    }
    let res = text_of(&v, i, v.len());
    assert(res@ =~= v@.skip(i as int));
    res
}

fn copy_range(bytes: &Vec<u8>, lo: usize, hi: usize) -> (v: Vec<u8>)
    requires
        lo <= hi <= bytes@.len(),
    ensures
        v@ == bytes@.subrange(lo as int, hi as int),
{
    let mut v: Vec<u8> = Vec::new();
    let mut i: usize = lo;
    while i < hi
        invariant
            lo <= i <= hi <= bytes@.len(),
            v@ == bytes@.subrange(lo as int, i as int),
        decreases hi - i,
    {
        v.push(bytes[i]);
        i += 1;
        assert(v@ =~= bytes@.subrange(lo as int, i as int));
    }
    v
}

fn read_lines(bytes: &Vec<u8>) -> (res: Vec<String>)
    ensures
        texts(res@) == readable_lines(bytes@),
{
    let mut res: Vec<String> = Vec::new();
    let mut start: usize = 0;
    assert(bytes@.skip(0) =~= bytes@);
    assert(texts(res@) + readable_lines(bytes@.skip(0)) =~= readable_lines(bytes@));
    while start < bytes.len()
        invariant
            start <= bytes@.len(),
            texts(res@) + readable_lines(bytes@.skip(start as int)) == readable_lines(bytes@),
        decreases bytes@.len() - start,
    {
        let mut end: usize = start;
        while end < bytes.len() && bytes[end] != 10
            invariant
                start <= end <= bytes@.len(),
                forall|j: int| start <= j < end ==> bytes@[j] != 10,
            decreases bytes@.len() - end,
        {
            end += 1;
        }
        let ghost rest = bytes@.skip(start as int);
        let ghost before = texts(res@);
        proof {
            assert forall|j: int| 0 <= j < end - start implies rest[j] != 10 by {
                assert(rest[j] == bytes@[start + j]);
            }
            lemma_line_end_is(rest, end - start);
        }
        let last = end == bytes.len();
        let stop: usize = if !last && end > start && bytes[end - 1] == 13 {
            end - 1
        } else {
            end
        };
        proof {
            assert(rest.take(end - start) =~= bytes@.subrange(start as int, end as int));
            if last {
                assert(bytes@.subrange(start as int, stop as int) =~= rest);
            } else {
                assert(bytes@.subrange(start as int, stop as int) =~= without_return_byte(
                    rest.take(end - start),
                ));
            }
        }
        match text_from_utf8(copy_range(bytes, start, stop)) {
            Some(line) => {
                let ghost text = line@;
                res.push(line);
                assert(texts(res@) =~= before + seq![text]);
                if last {
                    assert(texts(res@) =~= readable_lines(bytes@));
                    return res;
                }
                assert(rest.skip(end - start + 1) =~= bytes@.skip(end + 1));
                assert(texts(res@) + readable_lines(bytes@.skip(end + 1)) =~= before
                    + readable_lines(rest));
                start = end + 1;
            },
            None => {
                assert(texts(res@) =~= readable_lines(bytes@));
                return res;
            },
        }
    }
    assert(bytes@.skip(start as int) =~= Seq::<u8>::empty());
    assert(texts(res@) =~= readable_lines(bytes@));
    res
}

/// The lines of a project's gitignore file, where it has one.
fn lines_of_gitignore(gitignore: &Option<Vec<u8>>) -> (res: Vec<String>)
    ensures
        texts(res@) == project_lines(*gitignore),
{
    match gitignore {
        None => {
            let res: Vec<String> = Vec::new();
            assert(texts(res@) =~= Seq::<Seq<char>>::empty());
            res
        },
        Some(bytes) => {
            let mut res = read_lines(bytes);
            if res.len() > 0 {
                let ghost before = texts(res@);
                let first = drop_marks(res[0].as_str());
                res.set(0, first);
                assert(texts(res@) =~= before.update(0, without_marks(before[0])));
            }
            res
        },
    }
}

// ---------------------------------------------------------------------------
// Built-in rules
// ---------------------------------------------------------------------------

/// Whether a directory of this name is never tracked.
pub open spec fn is_builtin_dir(name: Seq<char>) -> bool {
    ||| name == ".timeline"@
    ||| name == ".git"@
    ||| name == "node_modules"@
    ||| name == "dist"@
    ||| name == "build"@
    ||| name == ".next"@
    ||| name == "target"@
}

/// Whether a file of this name is never tracked: it may hold secrets, or it is left over
/// from editing.
pub open spec fn is_builtin_file(name: Seq<char>) -> bool {
    ||| name == ".env"@
    ||| begins_with(name, ".env."@)
    ||| finishes_with(name, ".pem"@)
    ||| finishes_with(name, ".key"@)
    ||| finishes_with(name, ".crt"@)
    ||| finishes_with(name, ".p12"@)
    ||| finishes_with(name, ".pfx"@)
    ||| finishes_with(name, ".swp"@)
    ||| finishes_with(name, ".swo"@)
    ||| finishes_with(name, ".tmp"@)
    ||| finishes_with(name, ".temp"@)
    ||| finishes_with(name, "~"@)
    ||| name == ".DS_Store"@
    ||| begins_with(name, ".#"@)
    ||| holds_text(name, "credential"@)
    ||| holds_text(name, "secret"@)
}

/// Whether some part is the name of a directory that is never tracked.
pub open spec fn in_builtin_dir(p: Seq<PathPart>) -> bool {
    exists|i: int|
        0 <= i < p.len() && (#[trigger] p[i] matches PathPart::Name(name) && is_builtin_dir(name))
}

/// Whether the built-in rules ignore a path, given by its parts below the project.
pub open spec fn builtin_ignores(p: Seq<PathPart>, is_dir: bool) -> bool {
    ||| in_builtin_dir(p)
    ||| !is_dir && (file_name(p) matches Some(name) && is_builtin_file(name))
}

fn names_builtin_dir(name: &str) -> (r: bool)
    ensures
        r == is_builtin_dir(name@),
{
    same_text(name, ".timeline") || same_text(name, ".git") || same_text(name, "node_modules")
        || same_text(name, "dist") || same_text(name, "build") || same_text(name, ".next")
        || same_text(name, "target")
}

fn names_builtin_file(name: &str) -> (r: bool)
    ensures
        r == is_builtin_file(name@),
{
    if same_text(name, ".env") || text_begins_with(name, ".env.") {
        return true;
    }
    if text_finishes_with(name, ".pem") || text_finishes_with(name, ".key") || text_finishes_with(
        name,
        ".crt",
    ) || text_finishes_with(name, ".p12") || text_finishes_with(name, ".pfx") {
        return true;
    }
    if text_finishes_with(name, ".swp") || text_finishes_with(name, ".swo") || text_finishes_with(
        name,
        ".tmp",
    ) || text_finishes_with(name, ".temp") || text_finishes_with(name, "~") {
        return true;
    }
    same_text(name, ".DS_Store") || text_begins_with(name, ".#") || text_holds(name, "credential")
        || text_holds(name, "secret")
}

/// Whether the built-in rules ignore a path, given by its parts from `from` on.
fn matches_builtin(p: &Vec<Part>, from: usize, is_dir: bool) -> (r: bool)
    requires
        from <= p@.len(),
    ensures
        r == builtin_ignores(part_views(p@).skip(from as int), is_dir),
{
    let ghost below = part_views(p@).skip(from as int);
    let mut i: usize = from;
    while i < p.len()
        invariant
            from <= i <= p@.len(),
            below == part_views(p@).skip(from as int),
            forall|j: int|
                0 <= j < i - from ==> !(#[trigger] below[j] matches PathPart::Name(name)
                    && is_builtin_dir(name)),
        decreases p@.len() - i,
    {
        assert(below[i - from] == p@[i as int]@);
        match &p[i] {
            Part::Name(name) => {
                if names_builtin_dir(name.as_str()) {
                    return true;
                }
            },
            _ => {},
        }
        i += 1;
    }
    if is_dir || from == p.len() {
        return false;
    }
    assert(below.last() == p@[p@.len() - 1]@);
    match &p[p.len() - 1] {
        Part::Name(name) => names_builtin_file(name.as_str()),
        _ => false,
    }
}

// ---------------------------------------------------------------------------
// The filter
// ---------------------------------------------------------------------------

/// Why a filter cannot be made.
#[derive(Debug, Clone, Copy, PartialEq, Eq, Structural)]
pub enum FilterError {
    /// The project's gitignore file cannot be used.
    BadGitignore,
}

impl FilterError {
    /// What the error says to the user.
    pub fn message(&self) -> (m: &'static str)
        ensures
            m@ == "failed to parse .gitignore"@,
    {
        "failed to parse .gitignore"
    }
}

/// Tells which files of a project are tracked.
#[derive(Debug)]
pub struct ProjectFilter {
    root: String,
    gitignore: Gitignore,
    is_empty: bool,
    max_file_size_bytes: u64,
}

/// The parts of a path below a directory; all its parts where it does not lie there.
pub open spec fn relative_parts(root: Seq<char>, path: Seq<char>) -> Seq<PathPart> {
    if parts_begin_with(parts(path), parts(root)) {
        parts(path).skip(parts(root).len() as int)
    } else {
        parts(path)
    }
}

/// Whether a path of a project is ignored: by the built-in rules, or by its gitignore
/// lines. The project directory itself is not.
pub open spec fn path_ignored(
    root: Seq<char>,
    lines: Seq<Seq<char>>,
    path: Seq<char>,
    is_dir: bool,
) -> bool {
    let below = relative_parts(root, path);
    &&& below.len() > 0
    &&& builtin_ignores(below, is_dir) || (!all_silent(lines) && gitignore_verdict(
        root,
        lines,
        path,
        is_dir,
    ))
}

/// The text of a file, where it is tracked: it is not ignored, it is a file, and it is neither
/// too large nor binary.
pub open spec fn file_text(
    is_ignored: bool,
    is_file: bool,
    size: u64,
    bytes: Seq<u8>,
    max: u64,
) -> Option<Seq<char>> {
    if is_ignored || !is_file || size > max {
        None
    } else {
        trackable_text(bytes, max)
    }
}

/// The text of a file of a size that is tracked; nothing where the file is too large, or
/// holds a zero byte, or is not UTF-8.
pub open spec fn trackable_text(bytes: Seq<u8>, max: u64) -> Option<Seq<char>> {
    if bytes.len() > max || bytes.contains(0) || !valid_utf8(bytes) {
        None
    } else {
        Some(decode_utf8(bytes))
    }
}

impl ProjectFilter {
    /// The project directory.
    pub closed spec fn root(&self) -> Seq<char> {
        self.root@
    }

    /// The lines of the project's gitignore file.
    pub closed spec fn lines(&self) -> Seq<Seq<char>> {
        matcher_lines(self.gitignore)
    }

    /// The size above which a file is not tracked.
    pub closed spec fn max_size(&self) -> u64 {
        self.max_file_size_bytes
    }

    /// Whether the matcher was made for the project directory.
    pub closed spec fn wf(&self) -> bool {
        &&& matcher_root(self.gitignore) == self.root@
        &&& self.is_empty == matcher_is_empty(self.gitignore)
        &&& all_silent(matcher_lines(self.gitignore)) ==> self.is_empty
    }

    /// Whether the project's gitignore file holds no glob.
    pub closed spec fn holds_no_glob(&self) -> bool {
        self.is_empty
    }

    /// Whether the gitignore lines can be asked about a path: the path lies in the project
    /// directory by its text, or the file holds no glob.
    pub open spec fn can_ask(&self, path: Seq<char>) -> bool {
        self.holds_no_glob() || !is_absolute(below_root(self.root(), path))
    }

    /// Whether it can be told of a path if it is ignored: the built-in rules tell, or the
    /// gitignore lines can be asked.
    pub open spec fn can_tell(&self, path: Seq<char>, is_dir: bool) -> bool {
        let below = relative_parts(self.root(), path);
        below.len() == 0 || builtin_ignores(below, is_dir) || self.can_ask(path)
    }

    /// The filter of a project. `gitignore` is what the project's gitignore file holds.
    pub fn new(root: String, gitignore: Option<Vec<u8>>, max_file_size_bytes: u64) -> (res: Result<
        Self,
        FilterError,
    >)
        ensures
            match res {
                Ok(filter) => {
                    &&& filter.wf()
                    &&& filter.root() == root@
                    &&& filter.lines() == project_lines(gitignore)
                    &&& filter.max_size() == max_file_size_bytes
                    &&& all_silent(project_lines(gitignore)) ==> filter.holds_no_glob()
                },
                Err(e) => {
                    &&& e == FilterError::BadGitignore
                    &&& !all_silent(project_lines(gitignore))
                    &&& !gitignore_builds(project_lines(gitignore))
                },
            },
    {
        let lines = lines_of_gitignore(&gitignore);
        let ghost all = texts(lines@);
        let mut builder = new_builder(root.as_str());
        let mut i: usize = 0;
        assert(all.take(0) =~= Seq::<Seq<char>>::empty());
        while i < lines.len()
            invariant
                i <= lines@.len(),
                all == texts(lines@),
                builder_root(builder) == root@,
                builder_lines(builder) == all.take(i as int),
            decreases lines@.len() - i,
        {
            add_line(&mut builder, lines[i].as_str());
            assert(all.take(i + 1) =~= all.take(i as int).push(lines@[i as int]@));
            i += 1;
        }
        assert(all.take(i as int) =~= all);
        match build_matcher(&builder) {
            Ok(matcher) => {
                let is_empty = holds_no_glob(&matcher);
                Ok(ProjectFilter { root, gitignore: matcher, is_empty, max_file_size_bytes })
            },
            Err(_) => Err(FilterError::BadGitignore),
        }
    }

    /// Whether it can be told of a path if it is ignored.
    pub fn is_tellable(&self, path: &str, is_dir: bool) -> (r: bool)
        requires
            self.wf(),
        ensures
            r == self.can_tell(path@, is_dir),
    {
        if self.is_empty {
            return true;
        }
        let all = parts_of(path);
        let from = self.first_part_below(&all);
        assert(part_views(all@).skip(0) =~= part_views(all@));
        from == all.len() || matches_builtin(&all, from, is_dir) || !path_is_absolute(
            strip_root(self.root.as_str(), path).as_str(),
        )
    }

    /// How many of the parts of a path name the project directory.
    fn first_part_below(&self, all: &Vec<Part>) -> (from: usize)
        ensures
            from == (if parts_begin_with(part_views(all@), parts(self.root())) {
                parts(self.root()).len()
            } else {
                0
            }),
            from <= all@.len(),
    {
        let base = parts_of(self.root.as_str());
        if starts_under(all, &base) {
            base.len()
        } else {
            0
        }
    }

    /// Whether a path of the project is ignored.
    pub fn is_path_ignored(&self, path: &str, is_dir: bool) -> (r: bool)
        requires
            self.wf(),
            self.can_tell(path@, is_dir),
        ensures
            r == path_ignored(self.root(), self.lines(), path@, is_dir),
    {
        let all = parts_of(path);
        let from = self.first_part_below(&all);
        assert(part_views(all@).skip(0) =~= part_views(all@));
        if from == all.len() {
            return false;
        }
        if matches_builtin(&all, from, is_dir) {
            return true;
        }
        matcher_ignores(&self.gitignore, path, is_dir)
    }

    /// Whether a file of this size is read at all.
    pub fn admits(&self, is_file: bool, size: u64) -> (r: bool)
        ensures
            r == (is_file && size <= self.max_size()),
    {
        is_file && size <= self.max_file_size_bytes
    }

    /// The text of what a file holds, where it is tracked.
    pub fn text_of_bytes(&self, bytes: Vec<u8>) -> (res: Option<String>)
        ensures
            opt_text(res) == trackable_text(bytes@, self.max_size()),
    {
        if bytes.len() as u64 > self.max_file_size_bytes {
            return None;
        }
        let mut i: usize = 0;
        while i < bytes.len()
            invariant
                i <= bytes@.len(),
                forall|j: int| 0 <= j < i ==> bytes@[j] != 0,
            decreases bytes@.len() - i,
        {
            if bytes[i] == 0 {
                assert(bytes@.contains(0));
                return None;
            }
            i += 1;
        }
        text_from_utf8(bytes)
    }

    /// The text of a file, where it is tracked: it is not ignored, it is a file, and it is
    /// neither too large nor binary. `size` is what the file system says of it, `bytes` is
    /// what it holds.
    pub fn read_trackable_text(
        &self,
        path: &str,
        is_file: bool,
        size: u64,
        bytes: Vec<u8>,
    ) -> (res: Option<String>)
        requires
            self.wf(),
            self.can_tell(path@, false),
        ensures
            opt_text(res) == file_text(
                path_ignored(self.root(), self.lines(), path@, false),
                is_file,
                size,
                bytes@,
                self.max_size(),
            ),
    {
        if self.is_path_ignored(path, false) || !self.admits(is_file, size) {
            return None;
        }
        self.text_of_bytes(bytes)
    }
}

fn drop_here(path: &str) -> (s: String)
    ensures
        s@ == without_here(path@),
{
    proof {
        reveal_strlit("./");
        assert("./"@ =~= seq!['.', '/']);
    }
    if text_begins_with(path, "./") {
        let v = chars_of(path);
        let s = text_of(&v, 2, v.len());
        assert(s@ =~= path@.skip(2));
        s
    } else {
        path.to_owned()
    }
}

fn strip_root(root: &str, path: &str) -> (s: String)
    ensures
        s@ == below_root(root@, path@),
{
    let base = drop_here(root);
    let p = drop_here(path);
    let base_parts = parts_of(base.as_str());
    let only_here = base_parts.len() == 1 && match &base_parts[0] {
        Part::Here => true,
        _ => false,
    };
    proof {
        let views = part_views(base_parts@);
        if only_here {
            assert(views =~= seq![PathPart::Here]);
        } else if views.len() == 1 {
            assert(views[0] == base_parts@[0]@);
            assert(seq![PathPart::Here][0] == PathPart::Here);
        } else {
            assert(seq![PathPart::Here].len() == 1);
        }
    }
    let v = chars_of(p.as_str());
    let mut has_slash = false;
    let mut i: usize = 0;
    while i < v.len()
        invariant
            i <= v@.len(),
            v@ == p@,
            has_slash ==> p@.contains('/'),
            !has_slash ==> forall|j: int| 0 <= j < i ==> p@[j] != '/',
        decreases v@.len() - i,
    {
        if v[i] == '/' {
            assert(p@[i as int] == '/');
            has_slash = true;
        }
        i += 1;
    }
    assert(has_slash == p@.contains('/'));
    if only_here || !has_slash || !text_begins_with(p.as_str(), base.as_str()) {
        return p;
    }
    let n: usize = base.as_str().unicode_len();
    let rest = text_of(&v, n, v.len());
    assert(rest@ =~= p@.skip(n as int));
    if path_is_absolute(rest.as_str()) {
        let w = chars_of(rest.as_str());
        let out = text_of(&w, 1, w.len());
        assert(out@ =~= rest@.skip(1));
        out
    } else {
        rest
    }
}

/// What the built-in rules ignore stays ignored, whatever the gitignore lines say.
pub proof fn law_builtin_rules_cannot_be_lifted(
    root: Seq<char>,
    lines: Seq<Seq<char>>,
    path: Seq<char>,
    is_dir: bool,
)
    requires
        builtin_ignores(relative_parts(root, path), is_dir),
    ensures
        path_ignored(root, lines, path, is_dir),
{
    let below = relative_parts(root, path);
    if !in_builtin_dir(below) {
        assert(file_name(below) is Some);
    }
}

/// Nothing below a directory that the built-in rules ignore is kept.
pub proof fn law_nothing_below_builtin_directories_is_kept(
    root: Seq<char>,
    lines: Seq<Seq<char>>,
    directory: Seq<char>,
    path: Seq<char>,
    is_dir: bool,
)
    requires
        in_builtin_dir(relative_parts(root, directory)),
        parts_begin_with(parts(directory), parts(root)),
        parts_begin_with(parts(path), parts(directory)),
    ensures
        path_ignored(root, lines, path, is_dir),
{
    let n = parts(root).len() as int;
    let above = relative_parts(root, directory);
    let i = choose|i: int|
        0 <= i < above.len() && (#[trigger] above[i] matches PathPart::Name(name)
            && is_builtin_dir(name));
    assert(parts_begin_with(parts(path), parts(root))) by {
        assert(parts(path).take(n) =~= parts(directory).take(n));
    }
    let below = relative_parts(root, path);
    assert(parts(path)[n + i] == parts(directory)[n + i]) by {
        assert(parts(path).take(parts(directory).len() as int)[n + i] == parts(directory)[n + i]);
    }
    assert(below[i] == above[i]);
}

} // verus!
