//! Paths as texts, with `/` between their parts.
use vstd::prelude::*;
use vstd::string::*;

use crate::text::{
    chars_of,
    join,
    joined,
    lemma_position_of,
    lemma_position_unique,
    lemma_text_before_total,
    lemma_text_before_transitive,
    opt_text,
    position_of,
    same_text,
    text_before,
    text_is_before,
    text_of,
    texts,
};

verus! {

/// One part of a path.
pub enum PathPart {
    /// The `/` that starts an absolute path.
    Root,
    /// A `.` at the start of a relative path.
    Here,
    /// A `..`.
    Up,
    /// A name.
    Name(Seq<char>),
}

/// One part of a path, as a value.
#[derive(Debug, Clone)]
pub enum Part {
    Root,
    Here,
    Up,
    Name(String),
}

impl View for Part {
    type V = PathPart;

    open spec fn view(&self) -> PathPart {
        match *self {
            Part::Root => PathPart::Root,
            Part::Here => PathPart::Here,
            Part::Up => PathPart::Up,
            Part::Name(name) => PathPart::Name(name@),
        }
    }
}

/// The views of a list of parts.
pub open spec fn part_views(v: Seq<Part>) -> Seq<PathPart> {
    v.map_values(|p: Part| p@)
}

/// Whether a path starts at the root of the file system.
pub open spec fn is_absolute(s: Seq<char>) -> bool {
    s.len() > 0 && s[0] == '/'
}

/// The part that one piece of text between separators stands for. An empty piece
/// stands for nothing, and so does a `.` anywhere but at the start.
pub open spec fn piece_parts(piece: Seq<char>, first: bool) -> Seq<PathPart> {
    if piece.len() == 0 {
        Seq::empty()
    } else if piece == seq!['.'] {
        if first {
            seq![PathPart::Here]
        } else {
            Seq::empty()
        }
    } else if piece == seq!['.', '.'] {
        seq![PathPart::Up]
    } else {
        seq![PathPart::Name(piece)]
    }
}

/// The parts that the pieces of a text stand for.
pub open spec fn body_parts(s: Seq<char>, first: bool) -> Seq<PathPart>
    decreases s.len(),
    via body_parts_decreases
{
    let i = position_of(s, '/') as int;
    if i == s.len() {
        piece_parts(s, first)
    } else {
        piece_parts(s.take(i), first) + body_parts(s.skip(i + 1), false)
    }
}

#[via_fn]
proof fn body_parts_decreases(s: Seq<char>, first: bool) {
    lemma_position_of(s, '/');
}

/// The parts of a path, in order.
pub open spec fn parts(s: Seq<char>) -> Seq<PathPart> {
    if is_absolute(s) {
        seq![PathPart::Root] + body_parts(s, true)
    } else {
        body_parts(s, true)
    }
}

/// Appends the part that the characters from `start` up to `end` stand for.
fn push_piece(v: &Vec<char>, start: usize, end: usize, first: bool, out: &mut Vec<Part>)
    requires
        start <= end <= v@.len(),
    ensures
        part_views(final(out)@) == part_views(old(out)@) + piece_parts(
            v@.subrange(start as int, end as int),
            first,
        ),
{
    let ghost before = part_views(out@);
    let ghost piece = v@.subrange(start as int, end as int);
    let n: usize = end - start;
    if n == 0 {
        assert(part_views(out@) =~= before + piece_parts(piece, first));
    } else if n == 1 && v[start] == '.' {
        assert(piece =~= seq!['.']);
        if first {
            out.push(Part::Here);
        }
        assert(part_views(out@) =~= before + piece_parts(piece, first));
    } else if n == 2 && v[start] == '.' && v[start + 1] == '.' {
        assert(piece =~= seq!['.', '.']);
        assert(piece != seq!['.']);
        out.push(Part::Up);
        assert(part_views(out@) =~= before + piece_parts(piece, first));
    } else {
        assert(piece != seq!['.']) by {
            assert(piece[0] == v@[start as int]);
            assert(seq!['.'].len() == 1);
        }
        assert(piece != seq!['.', '.']) by {
            assert(seq!['.', '.'].len() == 2);
            if n == 2 {
                assert(piece[0] == v@[start as int] && piece[1] == v@[start + 1]);
            }
        }
        let name = text_of(v, start, end);
        out.push(Part::Name(name));
        assert(part_views(out@) =~= before + piece_parts(piece, first));
    }
}

/// The parts of a path, in order.
pub fn parts_of(s: &str) -> (res: Vec<Part>)
    ensures
        part_views(res@) == parts(s@),
{
    let v = chars_of(s);
    let mut res: Vec<Part> = Vec::new();
    if v.len() > 0 && v[0] == '/' {
        res.push(Part::Root);
        assert(part_views(res@) =~= seq![PathPart::Root]);
    }
    let ghost lead = part_views(res@);
    assert(lead + body_parts(v@, true) =~= parts(s@));
    let mut start: usize = 0;
    let mut first = true;
    assert(v@.skip(0) =~= v@);
    loop
        invariant_except_break
            part_views(res@) + body_parts(v@.skip(start as int), first) == parts(s@),
        invariant
            start <= v@.len(),
            v@ == s@,
        ensures
            part_views(res@) == parts(s@),
        decreases v@.len() + 1 - start,
    {
        let mut end: usize = start;
        while end < v.len() && v[end] != '/'
            invariant
                start <= end <= v@.len(),
                forall|j: int| start <= j < end ==> v@[j] != '/',
            decreases v@.len() - end,
        {
            end += 1;
        }
        let ghost rest = v@.skip(start as int);
        let ghost before = part_views(res@);
        proof {
            assert forall|j: int| 0 <= j < end - start implies rest[j] != '/' by {
                assert(rest[j] == v@[start + j]);
            }
            lemma_position_unique(rest, '/', end - start);
        }
        push_piece(&v, start, end, first, &mut res);
        assert(rest.take(end - start) =~= v@.subrange(start as int, end as int));
        if end == v.len() {
            assert(rest =~= v@.subrange(start as int, end as int));
            break ;
        }
        assert(rest.skip(end - start + 1) =~= v@.skip(end + 1));
        assert(part_views(res@) + body_parts(v@.skip(end + 1), false) =~= before + body_parts(
            rest,
            first,
        ));
        start = end + 1;
        first = false;
    }
    res
}

/// Two paths joined: an absolute second path replaces the first.
pub open spec fn joined_path(base: Seq<char>, rest: Seq<char>) -> Seq<char> {
    if is_absolute(rest) {
        rest
    } else if base.len() == 0 || base.last() == '/' {
        base + rest
    } else {
        base + seq!['/'] + rest
    }
}

/// Whether a path starts at the root of the file system.
pub fn path_is_absolute(s: &str) -> (r: bool)
    ensures
        r == is_absolute(s@),
{
    s.unicode_len() > 0 && s.get_char(0) == '/'
}

/// Two paths joined: an absolute second path replaces the first.
pub fn join_path(base: &str, rest: &str) -> (s: String)
    ensures
        s@ == joined_path(base@, rest@),
{
    if path_is_absolute(rest) {
        return rest.to_owned();
    }
    let n: usize = base.unicode_len();
    let mut s = base.to_owned();
    if n > 0 && base.get_char(n - 1) != '/' {
        s.push('/');
        assert(s@ =~= base@ + seq!['/']);
    }
    s.append(rest);
    s
}

/// Whether two parts are the same.
pub fn same_part(a: &Part, b: &Part) -> (r: bool)
    ensures
        r == (a@ == b@),
{
    match (a, b) {
        (Part::Root, Part::Root) => true,
        (Part::Here, Part::Here) => true,
        (Part::Up, Part::Up) => true,
        (Part::Name(x), Part::Name(y)) => same_text(x.as_str(), y.as_str()),
        _ => false,
    }
}

/// Whether the parts of one path start with all the parts of another.
pub open spec fn parts_begin_with(path: Seq<PathPart>, base: Seq<PathPart>) -> bool {
    base.len() <= path.len() && path.take(base.len() as int) == base
}

/// Whether the parts of one path start with all the parts of another.
pub fn starts_under(path: &Vec<Part>, base: &Vec<Part>) -> (r: bool)
    ensures
        r == parts_begin_with(part_views(path@), part_views(base@)),
{
    if base.len() > path.len() {
        return false;
    }
    let mut i: usize = 0;
    while i < base.len()
        invariant
            i <= base@.len() <= path@.len(),
            part_views(path@).take(i as int) == part_views(base@).take(i as int),
        decreases base@.len() - i,
    {
        if !same_part(&path[i], &base[i]) {
            proof {
                let p = part_views(path@);
                let b = part_views(base@);
                assert(p.take(b.len() as int)[i as int] == path@[i as int]@);
                assert(b[i as int] == base@[i as int]@);
            }
            return false;
        }
        proof {
            let p = part_views(path@);
            let b = part_views(base@);
            assert(p.take(i + 1) =~= p.take(i as int).push(p[i as int]));
            assert(b.take(i + 1) =~= b.take(i as int).push(b[i as int]));
        }
        i += 1;
    }
    assert(part_views(base@).take(i as int) =~= part_views(base@));
    true
}

/// Whether some part leads upwards.
pub open spec fn leads_up(p: Seq<PathPart>) -> bool {
    exists|i: int| 0 <= i < p.len() && p[i] == PathPart::Up
}

/// Whether some part from `from` on leads upwards.
pub fn contains_parent_dir(p: &Vec<Part>, from: usize) -> (r: bool)
    requires
        from <= p@.len(),
    ensures
        r == leads_up(part_views(p@).skip(from as int)),
{
    let ghost rest = part_views(p@).skip(from as int);
    let mut i: usize = from;
    while i < p.len()
        invariant
            from <= i <= p@.len(),
            rest == part_views(p@).skip(from as int),
            forall|j: int| from <= j < i ==> p@[j]@ != PathPart::Up,
        decreases p@.len() - i,
    {
        match &p[i] {
            Part::Up => {
                assert(rest[i - from] == PathPart::Up);
                return true;
            },
            _ => {},
        }
        i += 1;
    }
    proof {
        assert forall|j: int| 0 <= j < rest.len() implies rest[j] != PathPart::Up by {
            assert(rest[j] == p@[from + j]@);
        }
    }
    false
}

/// The names among the parts, in order.
pub open spec fn names(p: Seq<PathPart>) -> Seq<Seq<char>>
    decreases p.len(),
{
    if p.len() == 0 {
        Seq::empty()
    } else {
        match p.last() {
            PathPart::Name(name) => names(p.drop_last()).push(name),
            _ => names(p.drop_last()),
        }
    }
}

/// The names among the parts from `from` on, in order.
pub fn names_of(p: &Vec<Part>, from: usize) -> (res: Vec<String>)
    requires
        from <= p@.len(),
    ensures
        texts(res@) == names(part_views(p@).skip(from as int)),
{
    let ghost rest = part_views(p@).skip(from as int);
    let mut res: Vec<String> = Vec::new();
    let mut i: usize = from;
    assert(texts(res@) =~= names(rest.take(0)));
    while i < p.len()
        invariant
            from <= i <= p@.len(),
            rest == part_views(p@).skip(from as int),
            texts(res@) == names(rest.take(i - from)),
        decreases p@.len() - i,
    {
        let ghost before = texts(res@);
        assert(rest.take(i + 1 - from).drop_last() =~= rest.take(i - from));
        assert(rest.take(i + 1 - from).last() == p@[i as int]@);
        match &p[i] {
            Part::Name(name) => {
                res.push(name.clone());
                assert(texts(res@) =~= before.push(name@));
            },
            _ => {},
        }
        i += 1;
    }
    assert(rest.take(p@.len() - from) =~= rest);
    res
}

/// The last part, where it is a name.
pub open spec fn file_name(p: Seq<PathPart>) -> Option<Seq<char>> {
    if p.len() == 0 {
        None
    } else {
        match p.last() {
            PathPart::Name(name) => Some(name),
            _ => None,
        }
    }
}

// ---------------------------------------------------------------------------
// Normal form
// ---------------------------------------------------------------------------

/// Whether a text can be a name inside a path.
pub open spec fn is_name(s: Seq<char>) -> bool {
    &&& s.len() > 0
    &&& s != seq!['.']
    &&& s != seq!['.', '.']
    &&& forall|i: int| 0 <= i < s.len() ==> s[i] != '/'
}

proof fn lemma_body_names(s: Seq<char>, first: bool)
    ensures
        forall|i: int|
            0 <= i < body_parts(s, first).len() ==> (#[trigger] body_parts(s, first)[i] matches PathPart::Name(
                n,
            ) ==> is_name(n)),
    decreases s.len(),
{
    let i = position_of(s, '/') as int;
    lemma_position_of(s, '/');
    if i < s.len() {
        lemma_body_names(s.skip(i + 1), false);
        let piece = s.take(i);
        assert forall|j: int| 0 <= j < piece.len() implies piece[j] != '/' by {
            assert(piece[j] == s[j]);
        }
        let head = piece_parts(piece, first);
        let tail = body_parts(s.skip(i + 1), false);
        assert(body_parts(s, first) == head + tail);
        assert forall|k: int| 0 <= k < (head + tail).len() implies (#[trigger] (head
            + tail)[k] matches PathPart::Name(n) ==> is_name(n)) by {
            if k >= head.len() {
                assert((head + tail)[k] == tail[k - head.len()]);
            }
        }
    } else {
        assert forall|j: int| 0 <= j < s.len() implies s[j] != '/' by {}
    }
}

/// Every name among the parts of a path can be a name inside a path.
pub proof fn lemma_part_names(s: Seq<char>)
    ensures
        forall|i: int|
            0 <= i < parts(s).len() ==> (#[trigger] parts(s)[i] matches PathPart::Name(n)
                ==> is_name(n)),
{
    lemma_body_names(s, true);
    if is_absolute(s) {
        let tail = body_parts(s, true);
        assert forall|k: int| 0 <= k < parts(s).len() implies (#[trigger] parts(
            s,
        )[k] matches PathPart::Name(n) ==> is_name(n)) by {
            if k >= 1 {
                assert(parts(s)[k] == tail[k - 1]);
            }
        }
    }
}

pub proof fn lemma_names_are_names(p: Seq<PathPart>)
    requires
        forall|i: int|
            0 <= i < p.len() ==> (#[trigger] p[i] matches PathPart::Name(n) ==> is_name(n)),
    ensures
        forall|i: int| 0 <= i < names(p).len() ==> is_name(#[trigger] names(p)[i]),
    decreases p.len(),
{
    if p.len() > 0 {
        assert forall|i: int| 0 <= i < p.drop_last().len() implies (#[trigger] p.drop_last()[i]
            matches PathPart::Name(n) ==> is_name(n)) by {
            assert(p.drop_last()[i] == p[i]);
        }
        lemma_names_are_names(p.drop_last());
        let before = names(p.drop_last());
        assert forall|i: int| 0 <= i < names(p).len() implies is_name(#[trigger] names(p)[i]) by {
            if i < before.len() {
                assert(names(p)[i] == before[i]);
            } else {
                assert(p.last() == p[p.len() - 1]);
            }
        }
    }
}

/// The names as parts of a path.
pub open spec fn name_parts(ns: Seq<Seq<char>>) -> Seq<PathPart> {
    ns.map_values(|n: Seq<char>| PathPart::Name(n))
}

pub proof fn lemma_body_of_name(s: Seq<char>, first: bool)
    requires
        is_name(s),
    ensures
        body_parts(s, first) == seq![PathPart::Name(s)],
{
    lemma_position_unique(s, '/', s.len() as int);
}

pub proof fn lemma_body_of_both(a: Seq<char>, b: Seq<char>, first: bool)
    ensures
        body_parts(a + seq!['/'] + b, first) == body_parts(a, first) + body_parts(b, false),
    decreases a.len(),
{
    let whole = a + seq!['/'] + b;
    let i = position_of(a, '/') as int;
    lemma_position_of(a, '/');
    assert forall|j: int| 0 <= j < i implies whole[j] != '/' by {
        assert(whole[j] == a[j]);
    }
    assert(whole[i] == '/');
    lemma_position_unique(whole, '/', i);
    assert(whole.take(i) =~= a.take(i));
    if i == a.len() {
        assert(a.take(i) =~= a);
        assert(whole.skip(i + 1) =~= b);
    } else {
        assert(whole.skip(i + 1) =~= a.skip(i + 1) + seq!['/'] + b);
        lemma_body_of_both(a.skip(i + 1), b, false);
        assert(body_parts(whole, first) =~= body_parts(a, first) + body_parts(b, false));
    }
}

pub proof fn lemma_body_append(s: Seq<char>, name: Seq<char>, first: bool)
    requires
        is_name(name),
    ensures
        body_parts(s + seq!['/'] + name, first) == body_parts(s, first).push(PathPart::Name(name)),
{
    lemma_body_of_both(s, name, first);
    lemma_body_of_name(name, false);
    assert(body_parts(s, first) + seq![PathPart::Name(name)] =~= body_parts(s, first).push(
        PathPart::Name(name),
    ));
}

/// The parts of names joined by separators are those names.
pub proof fn lemma_parts_of_joined(ns: Seq<Seq<char>>)
    requires
        ns.len() > 0,
        forall|i: int| 0 <= i < ns.len() ==> is_name(#[trigger] ns[i]),
    ensures
        parts(joined(ns, seq!['/'])) == name_parts(ns),
        !is_absolute(joined(ns, seq!['/'])),
        joined(ns, seq!['/']).len() > 0,
    decreases ns.len(),
{
    let s = joined(ns, seq!['/']);
    if ns.len() == 1 {
        assert(is_name(ns[0]));
        lemma_body_of_name(s, true);
        assert(name_parts(ns) =~= seq![PathPart::Name(ns[0])]);
    } else {
        let before = ns.drop_last();
        assert forall|i: int| 0 <= i < before.len() implies is_name(#[trigger] before[i]) by {
            assert(before[i] == ns[i]);
        }
        lemma_parts_of_joined(before);
        let t = joined(before, seq!['/']);
        assert(is_name(ns[ns.len() - 1]));
        lemma_body_append(t, ns.last(), true);
        assert(s[0] == t[0]);
        assert(name_parts(ns) =~= name_parts(before).push(PathPart::Name(ns.last())));
    }
}

pub proof fn lemma_names_of_name_parts(ns: Seq<Seq<char>>)
    ensures
        names(name_parts(ns)) == ns,
        !leads_up(name_parts(ns)),
    decreases ns.len(),
{
    let p = name_parts(ns);
    if ns.len() > 0 {
        lemma_names_of_name_parts(ns.drop_last());
        assert(p.drop_last() =~= name_parts(ns.drop_last()));
        assert(names(p) =~= ns);
    } else {
        assert(names(p) =~= ns);
    }
}

// ---------------------------------------------------------------------------
// Paths of a project
// ---------------------------------------------------------------------------

/// Why a path is not one of the project's.
#[derive(Debug, Clone, Copy, PartialEq, Eq, Structural)]
pub enum PathError {
    /// It lies outside the project directory.
    Outside,
    /// It leads upwards.
    Escapes,
    /// It names no file.
    NotAFile,
}

/// What an error says of `path` to the user.
pub open spec fn path_message(e: PathError, root: Seq<char>, path: Seq<char>) -> Seq<char> {
    match e {
        PathError::Outside => "path "@ + path + " is outside the project root "@ + root,
        PathError::Escapes => "path "@ + path + " escapes the project root"@,
        PathError::NotAFile => "path "@ + path + " does not refer to a file inside the project"@,
    }
}

impl PathError {
    /// What the error says of `path` to the user.
    pub fn message(&self, root: &str, path: &str) -> (m: String)
        ensures
            m@ == path_message(*self, root@, path@),
    {
        let mut m = "path ".to_owned();
        m.append(path);
        match self {
            PathError::Outside => {
                m.append(" is outside the project root ");
                m.append(root);
            },
            PathError::Escapes => m.append(" escapes the project root"),
            PathError::NotAFile => m.append(" does not refer to a file inside the project"),
        }
        m
    }
}

/// The path that an input means inside a project.
pub open spec fn resolved_input(root: Seq<char>, input: Seq<char>) -> Result<
    Seq<char>,
    PathError,
> {
    let whole = joined_path(root, input);
    let base = parts(root);
    if !parts_begin_with(parts(whole), base) {
        Err(PathError::Outside)
    } else if leads_up(parts(whole).skip(base.len() as int)) {
        Err(PathError::Escapes)
    } else {
        Ok(whole)
    }
}

/// The path that an input means inside the project at `root`.
pub fn resolve_input_path(root: &str, input: &str) -> (res: Result<String, PathError>)
    ensures
        match res {
            Ok(path) => resolved_input(root@, input@) == Ok::<Seq<char>, PathError>(path@),
            Err(e) => resolved_input(root@, input@) == Err::<Seq<char>, PathError>(e),
        },
{
    let whole = join_path(root, input);
    let base = parts_of(root);
    let all = parts_of(whole.as_str());
    if !starts_under(&all, &base) {
        return Err(PathError::Outside);
    }
    if contains_parent_dir(&all, base.len()) {
        return Err(PathError::Escapes);
    }
    Ok(whole)
}

/// The parts of a path below a project directory; a relative path is taken to be
/// there already.
pub open spec fn parts_below(root: Seq<char>, path: Seq<char>) -> Option<Seq<PathPart>> {
    if !is_absolute(path) {
        Some(parts(path))
    } else if parts_begin_with(parts(path), parts(root)) {
        Some(parts(path).skip(parts(root).len() as int))
    } else {
        None
    }
}

/// The path under which the project tracks a file.
pub open spec fn normalized(root: Seq<char>, path: Seq<char>) -> Result<Seq<char>, PathError> {
    match parts_below(root, path) {
        None => Err(PathError::Outside),
        Some(below) => if leads_up(below) {
            Err(PathError::Escapes)
        } else if names(below).len() == 0 {
            Err(PathError::NotAFile)
        } else {
            Ok(joined(names(below), seq!['/']))
        },
    }
}

/// The path under which the project at `root` tracks a file.
pub fn normalize_relative_path(root: &str, path: &str) -> (res: Result<String, PathError>)
    ensures
        match res {
            Ok(text) => normalized(root@, path@) == Ok::<Seq<char>, PathError>(text@),
            Err(e) => normalized(root@, path@) == Err::<Seq<char>, PathError>(e),
        },
{
    let all = parts_of(path);
    let mut from: usize = 0;
    assert(part_views(all@).skip(0) =~= part_views(all@));
    if path_is_absolute(path) {
        let base = parts_of(root);
        if !starts_under(&all, &base) {
            return Err(PathError::Outside);
        }
        from = base.len();
    }
    if contains_parent_dir(&all, from) {
        return Err(PathError::Escapes);
    }
    let pieces = names_of(&all, from);
    if pieces.len() == 0 {
        return Err(PathError::NotAFile);
    }
    proof {
        reveal_strlit("/");
        assert("/"@ =~= seq!['/']);
    }
    Ok(join(&pieces, "/"))
}

/// Whether a path is relative and made of names alone.
pub open spec fn is_normal(p: Seq<char>) -> bool {
    &&& !is_absolute(p)
    &&& parts(p).len() > 0
    &&& forall|i: int| 0 <= i < parts(p).len() ==> (#[trigger] parts(p)[i] is Name)
}

/// Whether a whole path leads into a directory and not up again.
pub open spec fn lies_in(root: Seq<char>, whole: Seq<char>) -> bool {
    &&& parts_begin_with(parts(whole), parts(root))
    &&& !leads_up(parts(whole).skip(parts(root).len() as int))
}

/// A path under which a project tracks a file is relative, is made of names alone,
/// and is its own normal form.
pub proof fn law_normal_paths_are_stable(root: Seq<char>, path: Seq<char>)
    requires
        normalized(root, path) is Ok,
    ensures
        ({
            let p = normalized(root, path)->Ok_0;
            &&& is_normal(p)
            &&& normalized(root, p) == Ok::<Seq<char>, PathError>(p)
        }),
{
    let below = parts_below(root, path)->Some_0;
    lemma_part_names(path);
    assert forall|i: int| 0 <= i < below.len() implies (#[trigger] below[i] matches PathPart::Name(
        n,
    ) ==> is_name(n)) by {
        if is_absolute(path) {
            assert(below[i] == parts(path)[i + parts(root).len()]);
        }
    }
    lemma_names_are_names(below);
    lemma_parts_of_joined(names(below));
    lemma_names_of_name_parts(names(below));
}

/// A tracked path names a file inside the project: joined to the project directory, it has
/// the parts of that directory and then its own names.
pub proof fn law_normal_paths_lie_in_project(root: Seq<char>, path: Seq<char>)
    requires
        is_normal(path),
    ensures
        parts(joined_path(root, path)) == parts(root) + parts(path),
        lies_in(root, joined_path(root, path)),
{
    let whole = joined_path(root, path);
    lemma_position_of(path, '/');
    assert(parts(path)[0] is Name);
    assert(body_parts(path, true) =~= body_parts(path, false));
    if root.len() == 0 {
        lemma_position_of(root, '/');
        assert(whole =~= path);
        assert(parts(root) + parts(path) =~= parts(path));
    } else if root.last() == '/' {
        let stem = root.drop_last();
        assert(root =~= stem + seq!['/'] + Seq::<char>::empty());
        assert(whole =~= stem + seq!['/'] + path);
        lemma_body_of_both(stem, Seq::empty(), true);
        lemma_body_of_both(stem, path, true);
        lemma_position_of(Seq::<char>::empty(), '/');
        assert(whole[0] == root[0]);
        assert(parts(whole) =~= parts(root) + parts(path));
    } else {
        lemma_body_of_both(root, path, true);
        assert(whole[0] == root[0]);
        assert(parts(whole) =~= parts(root) + parts(path));
    }
    assert(parts(whole).take(parts(root).len() as int) =~= parts(root));
    assert(parts(whole).skip(parts(root).len() as int) =~= parts(path));
}

/// A path that leads upwards is never accepted.
pub proof fn law_upward_paths_are_refused(root: Seq<char>, path: Seq<char>)
    requires
        parts_below(root, path) is Some,
        leads_up(parts_below(root, path)->Some_0),
    ensures
        normalized(root, path) == Err::<Seq<char>, PathError>(PathError::Escapes),
{
}

// ---------------------------------------------------------------------------
// Order
// ---------------------------------------------------------------------------

/// The place of the kinds of parts in the order of paths.
pub open spec fn part_rank(p: PathPart) -> int {
    match p {
        PathPart::Root => 0,
        PathPart::Here => 1,
        PathPart::Up => 2,
        PathPart::Name(_) => 3,
    }
}

/// Whether one part comes before another.
pub open spec fn part_before(a: PathPart, b: PathPart) -> bool {
    match (a, b) {
        (PathPart::Name(x), PathPart::Name(y)) => text_before(x, y),
        _ => part_rank(a) < part_rank(b),
    }
}

/// Whether one path comes before another, part by part.
pub open spec fn parts_before(a: Seq<PathPart>, b: Seq<PathPart>) -> bool
    decreases a.len(),
{
    if b.len() == 0 {
        false
    } else if a.len() == 0 {
        true
    } else if a[0] == b[0] {
        parts_before(a.drop_first(), b.drop_first())
    } else {
        part_before(a[0], b[0])
    }
}

/// Of two different paths one comes before the other, and never both.
pub proof fn lemma_parts_before_total(a: Seq<PathPart>, b: Seq<PathPart>)
    ensures
        a == b ==> !parts_before(a, b),
        a != b ==> (parts_before(a, b) != parts_before(b, a)),
    decreases a.len(),
{
    if a.len() > 0 && b.len() > 0 {
        if a[0] == b[0] {
            lemma_parts_before_total(a.drop_first(), b.drop_first());
            if a != b {
                assert(a.drop_first() != b.drop_first()) by {
                    if a.drop_first() == b.drop_first() {
                        assert(a =~= seq![a[0]] + a.drop_first());
                        assert(b =~= seq![b[0]] + b.drop_first());
                    }
                }
            }
        } else {
            match (a[0], b[0]) {
                (PathPart::Name(x), PathPart::Name(y)) => {
                    lemma_text_before_total(x, y);
                },
                _ => {},
            }
        }
    } else {
        assert(a.len() == 0 && b.len() == 0 ==> a =~= b);
    }
}

/// The order of paths is transitive.
pub proof fn lemma_parts_before_transitive(
    a: Seq<PathPart>,
    b: Seq<PathPart>,
    c: Seq<PathPart>,
)
    requires
        parts_before(a, b),
        parts_before(b, c),
    ensures
        parts_before(a, c),
    decreases a.len(),
{
    if a.len() > 0 {
        if a[0] == b[0] && b[0] == c[0] {
            lemma_parts_before_transitive(a.drop_first(), b.drop_first(), c.drop_first());
        } else if a[0] != b[0] && b[0] != c[0] {
            match (a[0], b[0]) {
                (PathPart::Name(x), PathPart::Name(y)) => match c[0] {
                    PathPart::Name(z) => {
                        lemma_text_before_transitive(x, y, z);
                        lemma_text_before_total(x, z);
                    },
                    _ => {},
                },
                _ => {},
            }
        }
    }
}

fn rank_of(p: &Part) -> (n: u8)
    ensures
        n == part_rank(p@),
{
    match p {
        Part::Root => 0,
        Part::Here => 1,
        Part::Up => 2,
        Part::Name(_) => 3,
    }
}

fn part_is_before(a: &Part, b: &Part) -> (r: bool)
    ensures
        r == part_before(a@, b@),
{
    match (a, b) {
        (Part::Name(x), Part::Name(y)) => text_is_before(x.as_str(), y.as_str()),
        _ => rank_of(a) < rank_of(b),
    }
}

/// Whether one path comes before another, part by part.
pub fn path_is_before(a: &str, b: &str) -> (r: bool)
    ensures
        r == parts_before(parts(a@), parts(b@)),
{
    let x = parts_of(a);
    let y = parts_of(b);
    let ghost p = part_views(x@);
    let ghost q = part_views(y@);
    let mut i: usize = 0;
    assert(p.skip(0) =~= p && q.skip(0) =~= q);
    while i < x.len() && i < y.len()
        invariant
            i <= x@.len(),
            i <= y@.len(),
            p == part_views(x@),
            q == part_views(y@),
            parts_before(p.skip(i as int), q.skip(i as int)) == parts_before(p, q),
            p == parts(a@),
            q == parts(b@),
        decreases x@.len() - i,
    {
        proof {
            assert(p.skip(i as int)[0] == x@[i as int]@);
            assert(q.skip(i as int)[0] == y@[i as int]@);
            assert(p.skip(i as int).drop_first() =~= p.skip(i + 1));
            assert(q.skip(i as int).drop_first() =~= q.skip(i + 1));
        }
        if !same_part(&x[i], &y[i]) {
            return part_is_before(&x[i], &y[i]);
        }
        i += 1;
    }
    i == x.len() && i < y.len()
}

/// Whether two paths have the same parts.
pub fn same_path(a: &str, b: &str) -> (r: bool)
    ensures
        r == (parts(a@) == parts(b@)),
{
    let x = parts_of(a);
    let y = parts_of(b);
    if x.len() != y.len() {
        assert(part_views(x@).len() != part_views(y@).len());
        return false;
    }
    let r = starts_under(&x, &y);
    proof {
        assert(part_views(x@).take(y@.len() as int) =~= part_views(x@));
    }
    r
}

// ---------------------------------------------------------------------------
// Paths as they are shown
// ---------------------------------------------------------------------------

/// Where the part stands that a piece of a path stands for, if any; the piece starts at
/// `at`.
pub open spec fn piece_spans(piece: Seq<char>, first: bool, at: int) -> Seq<(int, int)> {
    if piece_parts(piece, first).len() > 0 {
        seq![(at, at + piece.len())]
    } else {
        Seq::empty()
    }
}

/// Where the parts stand that the pieces of a text stand for; the text starts at `at`.
pub open spec fn body_spans(s: Seq<char>, first: bool, at: int) -> Seq<(int, int)>
    decreases s.len(),
    via body_spans_decreases
{
    let i = position_of(s, '/') as int;
    if i == s.len() {
        piece_spans(s, first, at)
    } else {
        piece_spans(s.take(i), first, at) + body_spans(s.skip(i + 1), false, at + i + 1)
    }
}

#[via_fn]
proof fn body_spans_decreases(s: Seq<char>, first: bool, at: int) {
    lemma_position_of(s, '/');
}

/// Where the parts of a path stand in it, each from its first character up to the one
/// after its last.
pub open spec fn spans(s: Seq<char>) -> Seq<(int, int)> {
    if is_absolute(s) {
        seq![(0int, 1int)] + body_spans(s, true, 0)
    } else {
        body_spans(s, true, 0)
    }
}

proof fn lemma_body_spans_match(s: Seq<char>, first: bool, at: int)
    ensures
        body_spans(s, first, at).len() == body_parts(s, first).len(),
    decreases s.len(),
{
    let i = position_of(s, '/') as int;
    lemma_position_of(s, '/');
    if i < s.len() {
        lemma_body_spans_match(s.skip(i + 1), false, at + i + 1);
    }
}

/// Every part of a path stands somewhere in it.
pub proof fn lemma_spans_match(s: Seq<char>)
    ensures
        spans(s).len() == parts(s).len(),
{
    lemma_body_spans_match(s, true, 0);
}

/// A path as it is shown in a project: from its first part below the project directory to
/// its last part; all of it where it does not lie there.
pub open spec fn shown_path(root: Seq<char>, path: Seq<char>) -> Seq<char> {
    let count = parts(root).len() as int;
    if !parts_begin_with(parts(path), parts(root)) {
        path
    } else if spans(path).len() <= count {
        Seq::empty()
    } else if count == 0 {
        path.take(spans(path).last().1)
    } else {
        path.subrange(spans(path)[count].0, spans(path).last().1)
    }
}

/// The views of spans.
spec fn span_views(v: Seq<(usize, usize)>) -> Seq<(int, int)> {
    v.map_values(|p: (usize, usize)| (p.0 as int, p.1 as int))
}

/// Whether spans lie in a text of a length, one after the other.
spec fn spans_lie_in(v: Seq<(int, int)>, n: int) -> bool {
    &&& forall|i: int| 0 <= i < v.len() ==> 0 <= (#[trigger] v[i]).0 <= v[i].1 <= n
    &&& forall|i: int, j: int| 0 <= i < j < v.len() ==> (#[trigger] v[i]).1 <= (#[trigger] v[j]).0
}

/// Where the parts of a path stand in it.
fn spans_of(s: &str) -> (res: Vec<(usize, usize)>)
    ensures
        span_views(res@) == spans(s@),
        spans_lie_in(span_views(res@), s@.len() as int),
{
    let v = chars_of(s);
    let mut res: Vec<(usize, usize)> = Vec::new();
    if v.len() > 0 && v[0] == '/' {
        res.push((0, 1));
        assert(span_views(res@) =~= seq![(0int, 1int)]);
    }
    let ghost lead = span_views(res@);
    assert(lead + body_spans(v@, true, 0) =~= spans(s@));
    let mut start: usize = 0;
    let mut first = true;
    assert(v@.skip(0) =~= v@);
    loop
        invariant_except_break
            span_views(res@) + body_spans(v@.skip(start as int), first, start as int) == spans(s@),
            start > 0 ==> forall|i: int|
                0 <= i < res@.len() ==> (#[trigger] span_views(res@)[i]).1 <= start,
            start == 0 ==> res@.len() <= 1 && (res@.len() == 1 ==> is_absolute(s@) && res@[0]
                == (0usize, 1usize)),
        invariant
            start <= v@.len(),
            v@ == s@,
            first == (start == 0),
            spans_lie_in(span_views(res@), s@.len() as int),
        ensures
            span_views(res@) == spans(s@),
        decreases v@.len() + 1 - start,
    {
        let mut end: usize = start;
        while end < v.len() && v[end] != '/'
            invariant
                start <= end <= v@.len(),
                forall|j: int| start <= j < end ==> v@[j] != '/',
            decreases v@.len() - end,
        {
            end += 1;
        }
        let ghost rest = v@.skip(start as int);
        let ghost before = span_views(res@);
        let ghost piece = v@.subrange(start as int, end as int);
        proof {
            assert forall|j: int| 0 <= j < end - start implies rest[j] != '/' by {
                assert(rest[j] == v@[start + j]);
            }
            lemma_position_unique(rest, '/', end - start);
            assert(rest.take(end - start) =~= piece);
            if end == v@.len() {
                assert(rest =~= piece);
            }
        }
        let mut found: Vec<Part> = Vec::new();
        push_piece(&v, start, end, first, &mut found);
        assert(part_views(found@) =~= piece_parts(piece, first));
        if found.len() > 0 {
            assert(end > start);
            res.push((start, end));
            proof {
                assert(span_views(res@) =~= before + piece_spans(piece, first, start as int));
                let after = span_views(res@);
                assert forall|i: int, j: int| 0 <= i < j < after.len() implies (
                #[trigger] after[i]).1 <= (#[trigger] after[j]).0 by {
                    if j < before.len() {
                        assert(before[i] == after[i] && before[j] == after[j]);
                    } else {
                        assert(before[i] == after[i]);
                    }
                }
                assert forall|i: int| 0 <= i < after.len() implies 0 <= (#[trigger] after[i]).0
                    <= after[i].1 <= s@.len() by {
                    if i < before.len() {
                        assert(before[i] == after[i]);
                    }
                }
            }
        } else {
            assert(span_views(res@) =~= before + piece_spans(piece, first, start as int));
        }
        if end == v.len() {
            break ;
        }
        assert(rest.skip(end - start + 1) =~= v@.skip(end + 1));
        assert(span_views(res@) + body_spans(v@.skip(end + 1), false, end + 1) =~= before
            + body_spans(rest, first, start as int));
        proof {
            let after = span_views(res@);
            assert forall|i: int| 0 <= i < res@.len() implies (#[trigger] after[i]).1 <= end
                + 1 by {
                if i < before.len() {
                    assert(after[i] == before[i]);
                }
            }
        }
        start = end + 1;
        first = false;
    }
    res
}

/// A path as it is shown in a project.
pub fn display_restore_path(root: &str, path: &str) -> (s: String)
    ensures
        s@ == shown_path(root@, path@),
{
    let base = parts_of(root);
    let all = parts_of(path);
    if !starts_under(&all, &base) {
        return path.to_owned();
    }
    let found = spans_of(path);
    let count: usize = base.len();
    if found.len() <= count {
        let s = String::new();
        assert(s@ =~= Seq::<char>::empty());
        return s;
    }
    let ghost views = span_views(found@);
    let end: usize = found[found.len() - 1].1;
    let start: usize = if count == 0 {
        0
    } else {
        found[count].0
    };
    let v = chars_of(path);
    proof {
        assert(views.last() == (found@.last().0 as int, found@.last().1 as int));
        assert(views[count as int] == (found@[count as int].0 as int, found@[count as int].1 as int));
        if count < found@.len() - 1 {
            assert(views[count as int].1 <= views[found@.len() - 1].0);
        }
        assert(views[found@.len() - 1] == views.last());
    }
    let s = text_of(&v, start, end);
    assert(count == 0 ==> s@ =~= path@.take(end as int));
    s
}

// ---------------------------------------------------------------------------
// Directories above
// ---------------------------------------------------------------------------

/// The directory that a path lies in: the path without its last part. The root of the
/// file system and the empty path lie in none.
pub open spec fn parent(s: Seq<char>) -> Option<Seq<char>> {
    let n = parts(s).len() as int;
    if n == 0 || parts(s).last() == PathPart::Root {
        None
    } else if n == 1 {
        Some(Seq::empty())
    } else {
        Some(s.take(spans(s)[n - 2].1))
    }
}

/// A path and the directories above it, nearest first.
pub open spec fn ancestors_of(s: Seq<char>) -> Seq<Seq<char>>
    decreases s.len(),
{
    match parent(s) {
        Some(p) => if p.len() < s.len() {
            seq![s] + ancestors_of(p)
        } else {
            seq![s]
        },
        None => seq![s],
    }
}

/// The directory that a path lies in.
pub fn parent_path(s: &str) -> (res: Option<String>)
    ensures
        opt_text(res) == parent(s@),
{
    let all = parts_of(s);
    let found = spans_of(s);
    let n: usize = all.len();
    if n == 0 {
        return None;
    }
    assert(part_views(all@).last() == all@.last()@);
    match &all[n - 1] {
        Part::Root => {
            return None;
        },
        _ => {},
    }
    let ghost views = span_views(found@);
    proof {
        lemma_spans_match(s@);
        assert(part_views(all@).len() == n);
    }
    if n == 1 {
        let empty = String::new();
        assert(empty@ =~= Seq::<char>::empty());
        return Some(empty);
    }
    let v = chars_of(s);
    assert(views[n - 2] == (found@[n - 2].0 as int, found@[n - 2].1 as int));
    let end: usize = found[n - 2].1;
    let text = text_of(&v, 0, end);
    assert(text@ =~= s@.take(end as int));
    Some(text)
}

/// A path and the directories above it, nearest first.
pub fn ancestors(s: &str) -> (res: Vec<String>)
    ensures
        texts(res@) == ancestors_of(s@),
{
    let mut res: Vec<String> = Vec::new();
    let mut cursor = s.to_owned();
    assert(texts(res@) + ancestors_of(cursor@) =~= ancestors_of(s@));
    loop
        invariant_except_break
            texts(res@) + ancestors_of(cursor@) == ancestors_of(s@),
        ensures
            texts(res@) == ancestors_of(s@),
        decreases cursor@.len(),
    {
        let ghost before = texts(res@);
        let ghost here = cursor@;
        let above = parent_path(cursor.as_str());
        let size: usize = cursor.as_str().unicode_len();
        res.push(cursor);
        assert(texts(res@) =~= before + seq![here]);
        match above {
            None => {
                break ;
            },
            Some(p) => {
                if p.as_str().unicode_len() >= size {
                    break ;
                }
                assert(texts(res@) + ancestors_of(p@) =~= before + ancestors_of(here));
                cursor = p;
            },
        }
    }
    res
}

} // verus!
