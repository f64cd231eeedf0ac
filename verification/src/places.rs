//! What the tracked path of a file says of where the file lies.
use vstd::prelude::*;

use crate::path::{
    body_parts,
    is_absolute,
    is_name,
    is_normal,
    joined_path,
    law_normal_paths_are_stable,
    law_normal_paths_lie_in_project,
    leads_up,
    lemma_body_append,
    lemma_body_of_both,
    lemma_body_of_name,
    lemma_names_are_names,
    lemma_names_of_name_parts,
    lemma_part_names,
    lemma_parts_of_joined,
    name_parts,
    names,
    normalized,
    parts,
    parts_begin_with,
    parts_below,
    piece_parts,
    resolved_input,
    PathError,
    PathPart,
};
use crate::text::{joined, lemma_position_of, lemma_position_unique, position_of};

verus! {

// ---------------------------------------------------------------------------
// Parts
// ---------------------------------------------------------------------------

/// A name behind a separator adds one part, and a name alone is one part.
pub proof fn law_a_name_adds_a_part(s: Seq<char>, name: Seq<char>)
    requires
        is_name(name),
    ensures
        parts(name) == seq![PathPart::Name(name)],
        s.len() > 0 ==> parts(s + seq!['/'] + name) == parts(s).push(PathPart::Name(name)),
{
    lemma_body_of_name(name, true);
    if s.len() > 0 {
        let whole = s + seq!['/'] + name;
        lemma_body_append(s, name, true);
        assert(whole[0] == s[0]);
        assert(parts(whole) =~= parts(s).push(PathPart::Name(name)));
    }
}

/// Two dots behind a separator lead upwards, wherever they stand.
pub proof fn law_two_dots_lead_up(s: Seq<char>, rest: Seq<char>)
    requires
        s.len() > 0,
        rest.len() > 0 ==> rest[0] == '/',
    ensures
        leads_up(parts(s + seq!['/', '.', '.'] + rest)),
{
    let dots = seq!['.', '.'];
    let whole = s + seq!['/', '.', '.'] + rest;
    lemma_position_of(dots, '/');
    let up = body_parts(dots, false);
    assert(dots != seq!['.']) by {
        assert(dots.len() == 2);
        assert(seq!['.'].len() == 1);
    }
    if position_of(dots, '/') < 2 {
        assert(dots[position_of(dots, '/') as int] == '/');
    }
    assert(up =~= seq![PathPart::Up]);
    let k = (body_parts(s, true).len() + if is_absolute(s) {
        1int
    } else {
        0int
    }) as int;
    assert(whole[0] == s[0]);
    if rest.len() == 0 {
        assert(whole =~= s + seq!['/'] + dots);
        lemma_body_of_both(s, dots, true);
    } else {
        let after = rest.skip(1);
        assert(whole =~= s + seq!['/'] + (dots + seq!['/'] + after));
        lemma_body_of_both(s, dots + seq!['/'] + after, true);
        lemma_body_of_both(dots, after, false);
    }
    assert(parts(whole)[k] == PathPart::Up);
}

// ---------------------------------------------------------------------------
// Tracked paths
// ---------------------------------------------------------------------------

/// The parts of a path below the project are names, but for a `.` at the start of a
/// relative one.
proof fn lemma_below_is_names(root: Seq<char>, path: Seq<char>)
    requires
        normalized(root, path) is Ok,
    ensures
        ({
            let below = parts_below(root, path)->Some_0;
            &&& forall|i: int|
                0 <= i < below.len() ==> (#[trigger] below[i] matches PathPart::Name(n)
                    ==> is_name(n))
            &&& forall|i: int| 0 <= i < names(below).len() ==> is_name(#[trigger] names(below)[i])
        }),
{
    let below = parts_below(root, path)->Some_0;
    lemma_part_names(path);
    assert forall|i: int| 0 <= i < below.len() implies (#[trigger] below[i] matches PathPart::Name(
        n,
    ) ==> is_name(n)) by {
        if is_absolute(path) {
            assert(below[i] == parts(path)[i + parts(root).len()]);
        }
    }
    lemma_names_are_names(below);
}

/// The tracked path of a file holds every name of its path below the project, in order.
pub proof fn law_tracked_paths_keep_every_name(root: Seq<char>, path: Seq<char>)
    requires
        normalized(root, path) is Ok,
    ensures
        parts_below(root, path) is Some,
        parts(normalized(root, path)->Ok_0) == name_parts(names(parts_below(root, path)->Some_0)),
        names(parts(normalized(root, path)->Ok_0)) == names(parts_below(root, path)->Some_0),
{
    let below = parts_below(root, path)->Some_0;
    lemma_below_is_names(root, path);
    lemma_parts_of_joined(names(below));
    lemma_names_of_name_parts(names(below));
}

proof fn lemma_no_inner_dots(s: Seq<char>)
    ensures
        forall|i: int|
            0 <= i < body_parts(s, false).len() ==> !(#[trigger] body_parts(s, false)[i] is Here)
                && !(body_parts(s, false)[i] is Root),
    decreases s.len(),
{
    let i = position_of(s, '/') as int;
    lemma_position_of(s, '/');
    if i < s.len() {
        lemma_no_inner_dots(s.skip(i + 1));
        let head = piece_parts(s.take(i), false);
        let tail = body_parts(s.skip(i + 1), false);
        assert(body_parts(s, false) == head + tail);
        assert forall|k: int| 0 <= k < (head + tail).len() implies !(#[trigger] (head
            + tail)[k] is Here) && !((head + tail)[k] is Root) by {
            if k >= head.len() {
                assert((head + tail)[k] == tail[k - head.len()]);
            }
        }
    }
}

/// The parts of an absolute path behind the first are names or lead upwards.
proof fn lemma_absolute_parts(s: Seq<char>)
    requires
        is_absolute(s),
    ensures
        parts(s).len() > 0,
        parts(s)[0] == PathPart::Root,
        forall|i: int|
            1 <= i < parts(s).len() ==> !(#[trigger] parts(s)[i] is Here) && !(parts(
                s,
            )[i] is Root),
{
    lemma_position_unique(s, '/', 0);
    let tail = body_parts(s.skip(1), false);
    lemma_no_inner_dots(s.skip(1));
    assert(s.take(0).len() == 0);
    assert(body_parts(s, true) =~= tail);
    assert forall|i: int| 1 <= i < parts(s).len() implies !(#[trigger] parts(s)[i] is Here) && !(
    parts(s)[i] is Root) by {
        assert(parts(s)[i] == tail[i - 1]);
    }
}

proof fn lemma_names_of_names(p: Seq<PathPart>)
    requires
        forall|i: int| 0 <= i < p.len() ==> (#[trigger] p[i] is Name),
    ensures
        name_parts(names(p)) == p,
    decreases p.len(),
{
    if p.len() > 0 {
        let rest = p.drop_last();
        assert forall|i: int| 0 <= i < rest.len() implies (#[trigger] rest[i] is Name) by {
            assert(rest[i] == p[i]);
        }
        lemma_names_of_names(rest);
        assert(p[p.len() - 1] is Name);
        assert(name_parts(names(p)) =~= name_parts(names(rest)).push(p.last()));
        assert(p =~= rest.push(p.last()));
    } else {
        assert(name_parts(names(p)) =~= p);
    }
}

/// A tracked path leads back to its file: joined to the project directory it has the parts
/// of the path that was given.
pub proof fn law_tracked_paths_lead_back(root: Seq<char>, path: Seq<char>)
    requires
        is_absolute(root),
        is_absolute(path),
        normalized(root, path) is Ok,
    ensures
        parts(joined_path(root, normalized(root, path)->Ok_0)) == parts(path),
{
    let p = normalized(root, path)->Ok_0;
    let below = parts_below(root, path)->Some_0;
    law_normal_paths_are_stable(root, path);
    law_normal_paths_lie_in_project(root, p);
    law_tracked_paths_keep_every_name(root, path);
    lemma_absolute_parts(root);
    lemma_absolute_parts(path);
    assert forall|i: int| 0 <= i < below.len() implies (#[trigger] below[i] is Name) by {
        assert(below[i] == parts(path)[i + parts(root).len()]);
        assert(below[i] != PathPart::Up);
    }
    lemma_names_of_names(below);
    assert(parts(path) =~= parts(root) + below);
}

/// Files at different places have different tracked paths.
pub proof fn law_tracked_paths_tell_files_apart(root: Seq<char>, a: Seq<char>, b: Seq<char>)
    requires
        is_absolute(root),
        is_absolute(a),
        is_absolute(b),
        normalized(root, a) is Ok,
        normalized(root, a) == normalized(root, b),
    ensures
        parts(a) == parts(b),
{
    law_tracked_paths_lead_back(root, a);
    law_tracked_paths_lead_back(root, b);
}

/// A name is tracked under itself, and a name below a tracked path is tracked below it,
/// character by character.
pub proof fn law_tracked_paths_grow_by_names(root: Seq<char>, path: Seq<char>, name: Seq<char>)
    requires
        is_name(name),
    ensures
        normalized(root, name) == Ok::<Seq<char>, PathError>(name),
        normalized(root, path) matches Ok(p) ==> normalized(root, path + seq!['/'] + name) == Ok::<
            Seq<char>,
            PathError,
        >(p + seq!['/'] + name),
{
    law_a_name_adds_a_part(path, name);
    assert(!is_absolute(name));
    let one = seq![PathPart::Name(name)];
    assert(one.drop_last() =~= Seq::<PathPart>::empty());
    assert(names(one) =~= seq![name]);
    assert(joined(seq![name], seq!['/']) == name);
    assert(!leads_up(one));
    if normalized(root, path) is Ok {
        let whole = path + seq!['/'] + name;
        let below = parts_below(root, path)->Some_0;
        if path.len() == 0 {
            lemma_position_of(path, '/');
            assert(names(below).len() == 0);
        }
        assert(whole[0] == path[0]);
        let more = below.push(PathPart::Name(name));
        assert(parts(whole) == parts(path).push(PathPart::Name(name)));
        if is_absolute(path) {
            let n = parts(root).len() as int;
            assert(parts(whole).take(n) =~= parts(path).take(n));
            assert(parts(whole).skip(n) =~= more);
        }
        assert(parts_below(root, whole) == Some(more));
        assert(more.drop_last() =~= below);
        assert(names(more) == names(below).push(name));
        assert(!leads_up(more)) by {
            if leads_up(more) {
                let i = choose|i: int| 0 <= i < more.len() && more[i] == PathPart::Up;
                assert(i < below.len());
                assert(below[i] == PathPart::Up);
            }
        }
        let ns = names(more);
        assert(ns.drop_last() =~= names(below));
        assert(joined(ns, seq!['/']) == joined(names(below), seq!['/']) + seq!['/'] + name);
    }
}

proof fn lemma_names_of_both(a: Seq<PathPart>, b: Seq<PathPart>)
    ensures
        names(a + b) == names(a) + names(b),
        leads_up(a + b) == (leads_up(a) || leads_up(b)),
    decreases b.len(),
{
    if b.len() > 0 {
        lemma_names_of_both(a, b.drop_last());
        assert((a + b).drop_last() =~= a + b.drop_last());
        assert((a + b).last() == b.last());
        assert(names(a + b) =~= names(a) + names(b));
    } else {
        assert(a + b =~= a);
        assert(names(a + b) =~= names(a) + names(b));
    }
    if leads_up(a + b) {
        let i = choose|i: int| 0 <= i < (a + b).len() && (a + b)[i] == PathPart::Up;
        if i < a.len() {
            assert(a[i] == PathPart::Up);
        } else {
            assert(b[i - a.len()] == PathPart::Up);
        }
    }
    if leads_up(a) {
        let i = choose|i: int| 0 <= i < a.len() && a[i] == PathPart::Up;
        assert((a + b)[i] == PathPart::Up);
    }
    if leads_up(b) {
        let i = choose|i: int| 0 <= i < b.len() && b[i] == PathPart::Up;
        assert((a + b)[a.len() + i] == PathPart::Up);
    }
}

/// A `.` at the start of a path changes neither its names nor whether it leads upwards.
proof fn lemma_leading_dot(s: Seq<char>)
    ensures
        names(body_parts(s, true)) == names(body_parts(s, false)),
        leads_up(body_parts(s, true)) == leads_up(body_parts(s, false)),
{
    let i = position_of(s, '/') as int;
    lemma_position_of(s, '/');
    let piece = if i == s.len() {
        s
    } else {
        s.take(i)
    };
    let tail = if i == s.len() {
        Seq::<PathPart>::empty()
    } else {
        body_parts(s.skip(i + 1), false)
    };
    let with = piece_parts(piece, true);
    let without = piece_parts(piece, false);
    assert(body_parts(s, true) =~= with + tail);
    assert(body_parts(s, false) =~= without + tail);
    lemma_names_of_both(with, tail);
    lemma_names_of_both(without, tail);
    if piece == seq!['.'] {
        assert(with.drop_last() =~= Seq::<PathPart>::empty());
        assert(names(with) =~= names(without));
        assert(!leads_up(with)) by {
            assert(with =~= seq![PathPart::Here]);
        }
        assert(!leads_up(without));
    }
}

/// A path inside the project is tracked in the same way whether it is given from the
/// project directory on or from the root of the file system on.
pub proof fn law_whole_and_relative_paths_agree(root: Seq<char>, rest: Seq<char>)
    requires
        is_absolute(root),
        !is_absolute(rest),
    ensures
        normalized(root, joined_path(root, rest)) == normalized(root, rest),
{
    let whole = joined_path(root, rest);
    lemma_leading_dot(rest);
    assert(whole[0] == '/');
    let tail = body_parts(rest, false);
    if root.last() == '/' {
        let stem = root.drop_last();
        assert(root =~= stem + seq!['/'] + Seq::<char>::empty());
        assert(whole =~= stem + seq!['/'] + rest);
        lemma_body_of_both(stem, Seq::empty(), true);
        lemma_body_of_both(stem, rest, true);
        lemma_position_of(Seq::<char>::empty(), '/');
        assert(parts(whole) =~= parts(root) + tail);
    } else {
        lemma_body_of_both(root, rest, true);
        assert(parts(whole) =~= parts(root) + tail);
    }
    assert(parts(whole).take(parts(root).len() as int) =~= parts(root));
    assert(parts(whole).skip(parts(root).len() as int) =~= tail);
}

/// What is outside the project, leads upwards or names no file is refused, and nothing else.
pub proof fn law_refused_paths(root: Seq<char>, path: Seq<char>)
    ensures
        normalized(root, path) == Err::<Seq<char>, PathError>(PathError::Outside) <==> is_absolute(
            path,
        ) && !parts_begin_with(parts(path), parts(root)),
        is_absolute(path) && parts_begin_with(parts(path), parts(root)) && leads_up(
            parts(path).skip(parts(root).len() as int),
        ) ==> normalized(root, path) == Err::<Seq<char>, PathError>(PathError::Escapes),
        !is_absolute(path) && leads_up(parts(path)) ==> normalized(root, path) == Err::<
            Seq<char>,
            PathError,
        >(PathError::Escapes),
{
}

/// An argument means the same file as the path that it is resolved to, and a name means the
/// file of that name in the project directory.
pub proof fn law_arguments_mean_their_files(root: Seq<char>, input: Seq<char>)
    ensures
        resolved_input(root, input) matches Ok(whole) ==> {
            &&& is_absolute(input) ==> whole == input
            &&& !is_absolute(input) && root.len() > 0 && root.last() != '/' ==> whole == root
                + seq!['/'] + input
            &&& parts_begin_with(parts(whole), parts(root))
            &&& !leads_up(parts(whole).skip(parts(root).len() as int))
        },
        is_normal(input) ==> resolved_input(root, input) is Ok,
        is_absolute(root) && !is_absolute(input) && normalized(root, input) is Ok
            ==> resolved_input(root, input) is Ok && normalized(
            root,
            resolved_input(root, input)->Ok_0,
        ) == normalized(root, input),
{
    if is_normal(input) {
        law_normal_paths_lie_in_project(root, input);
    }
    if is_absolute(root) && !is_absolute(input) && normalized(root, input) is Ok {
        law_whole_and_relative_paths_agree(root, input);
        let whole = joined_path(root, input);
        assert(is_absolute(whole));
        assert(parts_below(root, whole) is Some);
    }
}

/// An argument is refused as lying outside exactly where its whole path does not start with
/// the parts of the project directory, and as leading out of it exactly where it starts with
/// them and goes up again.
pub proof fn law_refused_arguments(root: Seq<char>, input: Seq<char>)
    ensures
        ({
            let whole = parts(joined_path(root, input));
            let n = parts(root).len() as int;
            let starts_inside = n <= whole.len() && whole.take(n) == parts(root);
            let goes_up = exists|i: int| n <= i < whole.len() && #[trigger] whole[i] == PathPart::Up;
            &&& resolved_input(root, input) == Err::<Seq<char>, PathError>(PathError::Outside)
                <==> !starts_inside
            &&& resolved_input(root, input) == Err::<Seq<char>, PathError>(PathError::Escapes)
                <==> starts_inside && goes_up
            &&& resolved_input(root, input) == Ok::<Seq<char>, PathError>(joined_path(root, input))
                <==> starts_inside && !goes_up
        }),
{
    let whole = parts(joined_path(root, input));
    let n = parts(root).len() as int;
    if parts_begin_with(whole, parts(root)) {
        let below = whole.skip(n);
        if leads_up(below) {
            let i = choose|i: int| 0 <= i < below.len() && #[trigger] below[i] == PathPart::Up;
            assert(whole[i + n] == PathPart::Up);
        } else {
            assert forall|i: int| n <= i < whole.len() implies #[trigger] whole[i]
                != PathPart::Up by {
                assert(below[i - n] == whole[i]);
            }
        }
    }
}

} // verus!
