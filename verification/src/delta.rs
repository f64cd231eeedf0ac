//! Patches between two texts, stored as bytes.
use vstd::prelude::*;
use vstd::slice::*;
use vstd::string::*;
use vstd::utf8::*;

use crate::text::{
    begins_with,
    chars_of,
    lemma_position_unique,
    lines,
    lines_of,
    position_of,
    text_begins_with,
    text_from_utf8,
    texts,
};
use crate::time::{all_digits, digits_value, is_digit};

verus! {

/// Why a stored patch gives no text.
#[derive(Debug, Clone, Copy, PartialEq, Eq, Structural)]
pub enum DeltaError {
    /// The stored bytes are not UTF-8.
    NotUtf8,
    /// The stored text is not a patch, or its ranges end beyond what can be counted to.
    NotAPatch,
    /// The patch does not fit the text it is applied to.
    DoesNotApply,
}

impl DeltaError {
    /// What the error says to the user.
    pub fn message(&self) -> (m: &'static str)
        ensures
            m@ == (match *self {
                DeltaError::NotUtf8 => "patch payload is not valid UTF-8"@,
                DeltaError::NotAPatch => "failed to parse stored patch"@,
                DeltaError::DoesNotApply => "failed to apply stored patch"@,
            }),
    {
        match self {
            DeltaError::NotUtf8 => "patch payload is not valid UTF-8",
            DeltaError::NotAPatch => "failed to parse stored patch",
            DeltaError::DoesNotApply => "failed to apply stored patch",
        }
    }
}

// ---------------------------------------------------------------------------
// Line numbers
// ---------------------------------------------------------------------------

/// Whether a line is the head of a hunk.
pub open spec fn heads_hunk(line: Seq<char>) -> bool {
    begins_with(line, seq!['@', '@', ' '])
}

/// The number that digits stand for, with a plus sign in front or without.
pub open spec fn count_of(s: Seq<char>) -> Option<nat> {
    let digits = if s.len() > 0 && s[0] == '+' {
        s.skip(1)
    } else {
        s
    };
    if digits.len() == 0 || !all_digits(digits) {
        None
    } else {
        Some(digits_value(digits))
    }
}

/// Whether the end of a range of lines, given by its first line and its length, can be
/// counted to. A range without a length is one line long.
pub open spec fn range_fits(range: Seq<char>) -> bool {
    let i = position_of(range, ',') as int;
    let length = if i < range.len() {
        count_of(range.skip(i + 1))
    } else {
        Some(1nat)
    };
    match (count_of(range.take(i)), length) {
        (Some(first), Some(length)) => first + length <= usize::MAX,
        _ => true,
    }
}

/// Where the ranges in the head of a hunk end: at the first ` @@`, or at the end of the text
/// where there is none.
pub open spec fn ranges_end(s: Seq<char>) -> nat
    decreases s.len(),
{
    if s.len() == 0 || begins_with(s, seq![' ', '@', '@']) {
        0
    } else {
        1 + ranges_end(s.drop_first())
    }
}

/// Whether the ends of both ranges in the head of a hunk can be counted to.
pub open spec fn head_fits(line: Seq<char>) -> bool {
    let ranges = line.skip(3).take(ranges_end(line.skip(3)) as int);
    let i = position_of(ranges, ' ') as int;
    &&& i > 0 ==> range_fits(ranges.subrange(1, i))
    &&& i + 2 <= ranges.len() ==> range_fits(ranges.skip(i + 2))
}

/// Whether the ranges of every hunk that another one follows end where a machine can count
/// to. What follows is held against these ends.
pub open spec fn numbers_fit(patch: Seq<char>) -> bool {
    forall|i: int, j: int|
        0 <= i < j < lines_of(patch).len() && heads_hunk(#[trigger] lines_of(patch)[i])
            && heads_hunk(#[trigger] lines_of(patch)[j]) ==> head_fits(lines_of(patch)[i])
}

pub proof fn lemma_ranges_end(s: Seq<char>, n: int)
    requires
        0 <= n <= s.len(),
        forall|k: int| 0 <= k < n ==> !begins_with(#[trigger] s.skip(k), seq![' ', '@', '@']),
        n < s.len() ==> begins_with(s.skip(n), seq![' ', '@', '@']),
    ensures
        ranges_end(s) == n,
    decreases n,
{
    assert(s.skip(0) =~= s);
    if n > 0 {
        let rest = s.drop_first();
        assert forall|k: int| 0 <= k < n - 1 implies !begins_with(
            #[trigger] rest.skip(k),
            seq![' ', '@', '@'],
        ) by {
            assert(rest.skip(k) =~= s.skip(k + 1));
        }
        assert(rest.skip(n - 1) =~= s.skip(n));
        assert(!begins_with(s.skip(0), seq![' ', '@', '@']));
        lemma_ranges_end(rest, n - 1);
    }
}

/// A number, or the first that no machine can count to where it is above that.
spec fn capped_count(n: nat) -> int {
    if n <= usize::MAX {
        n as int
    } else {
        usize::MAX + 1
    }
}

proof fn lemma_one_more_digit(s: Seq<char>, c: char)
    requires
        all_digits(s),
        is_digit(c),
    ensures
        all_digits(s.push(c)),
        digits_value(s.push(c)) == 10 * digits_value(s) + (c as int - '0' as int),
{
    assert(s.push(c).drop_last() =~= s);
}

/// A number with one more digit behind it.
fn with_digit(n: u128, c: char, Ghost(count): Ghost<nat>) -> (res: u128)
    requires
        n == capped_count(count),
        is_digit(c),
    ensures
        res == capped_count((10 * count + (c as int - '0' as int)) as nat),
{
    let limit: u128 = usize::MAX as u128;
    let d: u128 = (c as u32 - '0' as u32) as u128;
    let next: u128 = 10 * n + d;
    if next <= limit {
        next
    } else {
        limit + 1
    }
}

fn stands_mark(v: &Vec<char>, i: usize) -> (r: bool)
    requires
        i < v@.len(),
    ensures
        r == begins_with(v@.skip(i as int), seq![' ', '@', '@']),
{
    let ghost here = v@.skip(i as int);
    let ghost mark = seq![' ', '@', '@'];
    if v.len() - i < 3 {
        return false;
    }
    assert(here[0] == v@[i as int] && here[1] == v@[i + 1] && here[2] == v@[i + 2]);
    let r = v[i] == ' ' && v[i + 1] == '@' && v[i + 2] == '@';
    proof {
        if r {
            assert(here.take(3) =~= mark);
        } else if begins_with(here, mark) {
            assert(here.take(3)[0] == ' ' && here.take(3)[1] == '@' && here.take(3)[2] == '@');
        }
    }
    r
}

/// The number between two positions, where there is one; one that no machine can count to
/// stands as the first such.
fn count_between(v: &Vec<char>, lo: usize, hi: usize) -> (res: Option<u128>)
    requires
        lo <= hi <= v@.len(),
    ensures
        match (res, count_of(v@.subrange(lo as int, hi as int))) {
            (Some(n), Some(count)) => n == capped_count(count),
            (None, None) => true,
            _ => false,
        },
{
    let ghost all = v@.subrange(lo as int, hi as int);
    let from: usize = if lo < hi && v[lo] == '+' {
        lo + 1
    } else {
        lo
    };
    let ghost digits = v@.subrange(from as int, hi as int);
    proof {
        if lo < hi {
            assert(all[0] == v@[lo as int]);
        }
        assert(digits =~= (if all.len() > 0 && all[0] == '+' {
            all.skip(1)
        } else {
            all
        }));
    }
    if from == hi {
        return None;
    }
    let mut n: u128 = 0;
    let mut i: usize = from;
    assert(digits.take(0) =~= Seq::<char>::empty());
    while i < hi
        invariant
            lo <= from <= i <= hi <= v@.len(),
            digits == v@.subrange(from as int, hi as int),
            count_of(v@.subrange(lo as int, hi as int)) == (if all_digits(digits) {
                Some(digits_value(digits))
            } else {
                None
            }),
            all_digits(digits.take(i - from)),
            n == capped_count(digits_value(digits.take(i - from))),
        decreases hi - i,
    {
        let c: char = v[i];
        let ghost done = digits.take(i - from);
        proof {
            assert(digits[i - from] == c);
            assert(digits.take(i + 1 - from) =~= done.push(c));
        }
        if c < '0' || c > '9' {
            assert(!is_digit(digits[i - from]));
            return None;
        }
        proof {
            lemma_one_more_digit(done, c);
        }
        n = with_digit(n, c, Ghost(digits_value(done)));
        i += 1;
    }
    assert(digits.take(i - from) =~= digits);
    Some(n)
}

fn range_can_be_counted(v: &Vec<char>, lo: usize, hi: usize) -> (r: bool)
    requires
        lo <= hi <= v@.len(),
    ensures
        r == range_fits(v@.subrange(lo as int, hi as int)),
{
    let ghost range = v@.subrange(lo as int, hi as int);
    let mut i: usize = lo;
    while i < hi && v[i] != ','
        invariant
            lo <= i <= hi <= v@.len(),
            forall|j: int| lo <= j < i ==> v@[j] != ',',
        decreases hi - i,
    {
        i += 1;
    }
    proof {
        assert forall|j: int| 0 <= j < i - lo implies range[j] != ',' by {
            assert(range[j] == v@[lo + j]);
        }
        lemma_position_unique(range, ',', i - lo);
        assert(range.take(i - lo) =~= v@.subrange(lo as int, i as int));
        if i < hi {
            assert(range.skip(i - lo + 1) =~= v@.subrange(i + 1, hi as int));
        }
    }
    let first = count_between(v, lo, i);
    let length = if i < hi {
        count_between(v, i + 1, hi)
    } else {
        Some(1)
    };
    match (first, length) {
        (Some(first), Some(length)) => first + length <= usize::MAX as u128,
        _ => true,
    }
}

fn head_can_be_counted(line: &str) -> (r: bool)
    requires
        heads_hunk(line@),
    ensures
        r == head_fits(line@),
{
    let v = chars_of(line);
    let n: usize = v.len();
    let ghost rest = line@.skip(3);
    let mut end: usize = 3;
    while end < n && !stands_mark(&v, end)
        invariant
            3 <= end <= n == v@.len(),
            v@ == line@,
            rest == line@.skip(3),
            forall|k: int|
                0 <= k < end - 3 ==> !begins_with(#[trigger] rest.skip(k), seq![' ', '@', '@']),
        decreases n - end,
    {
        assert(rest.skip(end - 3) =~= v@.skip(end as int));
        end += 1;
    }
    assert(end < n ==> rest.skip(end - 3) =~= v@.skip(end as int));
    let ghost ranges = rest.take(end - 3);
    proof {
        lemma_ranges_end(rest, end - 3);
        assert(ranges =~= v@.subrange(3, end as int));
    }
    let mut i: usize = 3;
    while i < end && v[i] != ' '
        invariant
            3 <= i <= end <= v@.len(),
            forall|j: int| 3 <= j < i ==> v@[j] != ' ',
        decreases end - i,
    {
        i += 1;
    }
    proof {
        assert forall|j: int| 0 <= j < i - 3 implies ranges[j] != ' ' by {
            assert(ranges[j] == v@[3 + j]);
        }
        lemma_position_unique(ranges, ' ', i - 3);
        if i > 3 {
            assert(ranges.subrange(1, i - 3) =~= v@.subrange(4, i as int));
        }
        if end - i >= 2 {
            assert(ranges.skip(i - 3 + 2) =~= v@.subrange(i + 2, end as int));
        }
    }
    let first = i == 3 || range_can_be_counted(&v, 4, i);
    let second = end - i < 2 || range_can_be_counted(&v, i + 2, end);
    first && second
}

/// Whether the ranges of every hunk that another one follows end where a machine can count
/// to.
fn counts_fit(patch: &str) -> (r: bool)
    ensures
        r == numbers_fit(patch@),
{
    let all = lines(patch);
    let ghost ls = lines_of(patch@);
    let mark = "@@ ";
    proof {
        reveal_strlit("@@ ");
        assert(mark@ =~= seq!['@', '@', ' ']);
    }
    let mut odd: Option<usize> = None;
    let mut k: usize = 0;
    while k < all.len()
        invariant
            k <= all@.len() == ls.len(),
            texts(all@) == ls,
            ls == lines_of(patch@),
            mark@ == seq!['@', '@', ' '],
            match odd {
                Some(i) => i < k && heads_hunk(ls[i as int]) && !head_fits(ls[i as int]),
                None => forall|i: int|
                    0 <= i < k && heads_hunk(#[trigger] ls[i]) ==> head_fits(ls[i]),
            },
            forall|i: int, j: int|
                0 <= i < j < k && heads_hunk(#[trigger] ls[i]) && heads_hunk(#[trigger] ls[j])
                    ==> head_fits(ls[i]),
        decreases all@.len() - k,
    {
        assert(ls[k as int] == all@[k as int]@);
        if text_begins_with(all[k].as_str(), mark) {
            assert(heads_hunk(ls[k as int]));
            if odd.is_some() {
                return false;
            }
            if !head_can_be_counted(all[k].as_str()) {
                odd = Some(k);
            }
        }
        k += 1;
    }
    true
}

// ---------------------------------------------------------------------------
// Patches
// ---------------------------------------------------------------------------

/// The text of the patch that `diffy::create_patch` makes between two texts.
pub uninterp spec fn patch_text(previous: Seq<char>, current: Seq<char>) -> Seq<char>;

/// Whether `diffy::Patch::from_str` accepts a text whose ranges can be counted to.
pub uninterp spec fn patch_reads(patch: Seq<char>) -> bool;

/// What `diffy::apply` makes of a text and the patch that a second text holds, where
/// the patch fits and its ranges can be counted to.
pub uninterp spec fn patch_applied(previous: Seq<char>, patch: Seq<char>) -> Option<Seq<char>>;

/// `diffy::create_patch`, its result written out as text. The text depends on the two
/// arguments alone. Its line numbers are at most one above the number of lines of a text
/// in memory. Reading it back gives a patch, and that patch turns the first text into the
/// second.
#[verifier::external_body]
fn diffy_patch(previous: &str, current: &str) -> (res: String)
    ensures
        res@ == patch_text(previous@, current@),
        numbers_fit(res@),
        patch_reads(res@),
        patch_applied(previous@, res@) == Some(current@),
{
    diffy::create_patch(previous, current).to_string()
}

/// `diffy::Patch::from_str` and, on the patch that it reads, `diffy::apply`. Both
/// depend on their arguments alone; each failure is told apart. Once all hunks are read,
/// the ends of the ranges of each are held against the ranges of the next, and an end is
/// the sum of the two numbers of a range. Texts are left out in which such a sum overflows.
#[verifier::external_body]
fn diffy_apply(previous: &str, patch: &str) -> (res: Result<String, DeltaError>)
    requires
        numbers_fit(patch@),
    ensures
        match res {
            Ok(text) => patch_reads(patch@) && patch_applied(previous@, patch@) == Some(text@),
            Err(DeltaError::NotAPatch) => !patch_reads(patch@),
            Err(DeltaError::DoesNotApply) => patch_reads(patch@) && patch_applied(
                previous@,
                patch@,
            ) is None,
            Err(DeltaError::NotUtf8) => false,
        },
{
    match diffy::Patch::from_str(patch) {
        Ok(read) => match diffy::apply(previous, &read) {
            Ok(text) => Ok(text),
            Err(_) => Err(DeltaError::DoesNotApply),
        },
        Err(_) => Err(DeltaError::NotAPatch),
    }
}

/// What a stored patch makes of a text.
pub open spec fn patch_outcome(previous: Seq<char>, payload: Seq<u8>) -> Result<
    Seq<char>,
    DeltaError,
> {
    if !valid_utf8(payload) {
        Err(DeltaError::NotUtf8)
    } else if !numbers_fit(decode_utf8(payload)) || !patch_reads(decode_utf8(payload)) {
        Err(DeltaError::NotAPatch)
    } else {
        match patch_applied(previous, decode_utf8(payload)) {
            Some(text) => Ok(text),
            None => Err(DeltaError::DoesNotApply),
        }
    }
}

/// The patch that turns `previous` into `current`, as bytes to store.
pub fn create_patch(previous: &str, current: &str) -> (payload: Vec<u8>)
    ensures
        payload@ == encode_utf8(patch_text(previous@, current@)),
        patch_outcome(previous@, payload@) == Ok::<Seq<char>, DeltaError>(current@),
{
    let patch = diffy_patch(previous, current);
    proof {
        encode_utf8_valid_utf8(patch@);
        encode_utf8_decode_utf8(patch@);
    }
    slice_to_vec(patch.as_str().as_bytes())
}

/// Applies a stored patch to `previous`.
pub fn apply_patch(previous: &str, patch_bytes: &[u8]) -> (res: Result<String, DeltaError>)
    ensures
        match res {
            Ok(text) => patch_outcome(previous@, patch_bytes@) == Ok::<Seq<char>, DeltaError>(
                text@,
            ),
            Err(e) => patch_outcome(previous@, patch_bytes@) == Err::<Seq<char>, DeltaError>(e),
        },
{
    match text_from_utf8(slice_to_vec(patch_bytes)) {
        Some(patch) => if counts_fit(patch.as_str()) {
            diffy_apply(previous, patch.as_str())
        } else {
            Err(DeltaError::NotAPatch)
        },
        None => Err(DeltaError::NotUtf8),
    }
}

} // verus!
