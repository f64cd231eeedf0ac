//! Which patches can be held against a text.
use vstd::prelude::*;
use vstd::utf8::*;

use crate::delta::{
    count_of,
    head_fits,
    heads_hunk,
    lemma_ranges_end,
    numbers_fit,
    patch_applied,
    patch_outcome,
    patch_reads,
    range_fits,
    DeltaError,
};
use crate::text::{begins_with, decimal, lemma_position_unique, lines_of};
use crate::time::{is_digit};
use crate::wording::law_decimals_read_back;

verus! {

proof fn lemma_decimal(n: nat, c: char)
    requires
        !is_digit(c),
    ensures
        decimal(n).len() > 0,
        forall|i: int| 0 <= i < decimal(n).len() ==> decimal(n)[i] != c,
        count_of(decimal(n)) == Some(n),
{
    law_decimals_read_back(n);
    let s = decimal(n);
    assert forall|i: int| 0 <= i < s.len() implies s[i] != c by {
        assert(is_digit(s[i]));
    }
    assert(is_digit(s[0]));
    assert('+' as u32 == 43 && '0' as u32 == 48);
}

/// A range of lines fits where its first line and its length together are no more than a
/// machine counts to. A range without a length is one line long.
pub proof fn law_ranges_fit(first: nat, length: nat)
    ensures
        range_fits(decimal(first) + seq![','] + decimal(length)) <==> first + length <= usize::MAX,
        range_fits(decimal(first)) <==> first + 1 <= usize::MAX,
{
    assert(',' as u32 == 44 && '0' as u32 == 48 && '9' as u32 == 57);
    lemma_decimal(first, ',');
    lemma_decimal(length, ',');
    let a = decimal(first);
    let range = a + seq![','] + decimal(length);
    let i = a.len() as int;
    assert forall|j: int| 0 <= j < i implies range[j] != ',' by {
        assert(range[j] == a[j]);
    }
    lemma_position_unique(range, ',', i);
    assert(range.take(i) =~= a);
    assert(range.skip(i + 1) =~= decimal(length));
    lemma_position_unique(a, ',', i);
    assert(a.take(i) =~= a);
}

/// The head of a hunk fits where both of its ranges do, whatever is said behind them.
pub proof fn law_heads_fit(old: Seq<char>, new: Seq<char>, rest: Seq<char>)
    requires
        !old.contains(' '),
        !new.contains(' '),
    ensures
        ({
            let line = seq!['@', '@', ' ', '-'] + old + seq![' ', '+'] + new + seq![' ', '@', '@']
                + rest;
            &&& heads_hunk(line)
            &&& head_fits(line) <==> range_fits(old) && range_fits(new)
        }),
{
    let line = seq!['@', '@', ' ', '-'] + old + seq![' ', '+'] + new + seq![' ', '@', '@'] + rest;
    let mark = seq![' ', '@', '@'];
    assert(line.take(3) =~= seq!['@', '@', ' ']);
    let s = line.skip(3);
    let n = 3 + old.len() + new.len();
    assert(s =~= seq!['-'] + old + seq![' ', '+'] + new + mark + rest);
    assert forall|j: int| 0 <= j < old.len() implies old[j] != ' ' by {
        assert(old.contains(old[j]));
    }
    assert forall|j: int| 0 <= j < new.len() implies new[j] != ' ' by {
        assert(new.contains(new[j]));
    }
    assert forall|k: int| 0 <= k < n implies !begins_with(#[trigger] s.skip(k), mark) by {
        let cut = s.skip(k);
        if begins_with(cut, mark) {
            assert(cut.take(3)[0] == cut[0] && cut.take(3)[1] == cut[1]);
            assert(cut[0] == ' ' && cut[1] == '@');
            assert(s[k] == ' ' && s[k + 1] == '@');
            if 1 <= k < 1 + old.len() {
                assert(s[k] == old[k - 1]);
            } else if k == 1 + old.len() {
                assert(s[k + 1] == '+');
            } else if k >= 3 + old.len() {
                assert(s[k] == new[k - 3 - old.len()]);
            }
        }
    }
    assert(s.skip(n as int).take(3) =~= mark);
    lemma_ranges_end(s, n as int);
    let ranges = s.take(n as int);
    let i = 1 + old.len() as int;
    assert forall|j: int| 0 <= j < i implies ranges[j] != ' ' by {
        if j > 0 {
            assert(ranges[j] == old[j - 1]);
        }
    }
    assert(ranges[i] == ' ');
    lemma_position_unique(ranges, ' ', i);
    assert(ranges.subrange(1, i) =~= old);
    assert(ranges.skip(i + 2) =~= new);
}

/// The numbers of a patch fit where every head of a hunk that another one follows fits; the
/// last one need not.
pub proof fn law_numbers_fit(patch: Seq<char>)
    ensures
        numbers_fit(patch) <==> forall|i: int|
            0 <= i < lines_of(patch).len() && heads_hunk(#[trigger] lines_of(patch)[i]) && (exists|
                j: int,
            |
                i < j < lines_of(patch).len() && heads_hunk(#[trigger] lines_of(patch)[j]))
                ==> head_fits(lines_of(patch)[i]),
{
    let lines = lines_of(patch);
    if numbers_fit(patch) {
        assert forall|i: int|
            0 <= i < lines.len() && heads_hunk(#[trigger] lines[i]) && (exists|j: int|
                i < j < lines.len() && heads_hunk(#[trigger] lines[j])) implies head_fits(
            lines[i],
        ) by {
            let j = choose|j: int| i < j < lines.len() && heads_hunk(#[trigger] lines[j]);
            assert(heads_hunk(lines[j]));
        }
    } else {
        let (i, j) = choose|i: int, j: int|
            0 <= i < j < lines.len() && heads_hunk(#[trigger] lines[i]) && heads_hunk(
                #[trigger] lines[j],
            ) && !head_fits(lines[i]);
        assert(heads_hunk(lines[j]));
    }
}

/// A stored patch gives what it makes of the text before it. What is no UTF-8, is no patch
/// or does not fit that text is told apart.
pub proof fn law_stored_patches(previous: Seq<char>, patch: Seq<char>, bytes: Seq<u8>)
    ensures
        !valid_utf8(bytes) ==> patch_outcome(previous, bytes) == Err::<Seq<char>, DeltaError>(
            DeltaError::NotUtf8,
        ),
        numbers_fit(patch) && patch_reads(patch) && patch_applied(previous, patch) is Some
            ==> patch_outcome(previous, encode_utf8(patch)) == Ok::<Seq<char>, DeltaError>(
            patch_applied(previous, patch)->Some_0,
        ),
        numbers_fit(patch) && patch_reads(patch) && patch_applied(previous, patch) is None
            ==> patch_outcome(previous, encode_utf8(patch)) == Err::<Seq<char>, DeltaError>(
            DeltaError::DoesNotApply,
        ),
        !numbers_fit(patch) || !patch_reads(patch) ==> patch_outcome(previous, encode_utf8(patch))
            == Err::<Seq<char>, DeltaError>(DeltaError::NotAPatch),
{
    encode_utf8_valid_utf8(patch);
    encode_utf8_decode_utf8(patch);
}

} // verus!
