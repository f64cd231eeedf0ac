//! Times as users write them, and how long ago they are.
use vstd::prelude::*;
use vstd::string::*;

use crate::text::{byte_len, decimal, finishes_with, is_space, trimmed, trimmed_end, trimmed_start};
use crate::time::{
    after_sign,
    all_digits,
    before_ago,
    capped,
    digits_value,
    duration_ms,
    duration_so_far,
    exact_text,
    human_text,
    is_digit,
    number,
    rfc3339_millis,
    says_now,
    text_in_zone,
    timestamp_at,
    unit_ms,
    without_blanks,
    zoned_text,
    TimeError,
};
use crate::wording::law_decimals_read_back;

verus! {

// ---------------------------------------------------------------------------
// Blanks
// ---------------------------------------------------------------------------

/// Whether a text is made of blanks alone.
pub open spec fn is_blank(s: Seq<char>) -> bool {
    forall|i: int| 0 <= i < s.len() ==> s[i] == ' '
}

proof fn lemma_trimmed_start(blanks: Seq<char>, s: Seq<char>)
    requires
        is_blank(blanks),
    ensures
        trimmed_start(blanks + s) == trimmed_start(s),
    decreases blanks.len(),
{
    if blanks.len() > 0 {
        assert((blanks + s).drop_first() =~= blanks.drop_first() + s);
        assert((blanks + s)[0] == ' ');
        assert forall|i: int| 0 <= i < blanks.drop_first().len() implies blanks.drop_first()[i]
            == ' ' by {
            assert(blanks.drop_first()[i] == blanks[i + 1]);
        }
        lemma_trimmed_start(blanks.drop_first(), s);
    } else {
        assert(blanks + s =~= s);
    }
}

proof fn lemma_trimmed_end(s: Seq<char>, blanks: Seq<char>)
    requires
        is_blank(blanks),
    ensures
        trimmed_end(s + blanks) == trimmed_end(s),
    decreases blanks.len(),
{
    if blanks.len() > 0 {
        assert((s + blanks).drop_last() =~= s + blanks.drop_last());
        assert((s + blanks).last() == ' ') by {
            assert(blanks[blanks.len() - 1] == ' ');
        }
        assert forall|i: int| 0 <= i < blanks.drop_last().len() implies blanks.drop_last()[i]
            == ' ' by {
            assert(blanks.drop_last()[i] == blanks[i]);
        }
        lemma_trimmed_end(s, blanks.drop_last());
    } else {
        assert(s + blanks =~= s);
    }
}

proof fn lemma_start_before_end(s: Seq<char>, blanks: Seq<char>)
    requires
        is_blank(blanks),
    ensures
        trimmed_end(trimmed_start(s + blanks)) == trimmed_end(trimmed_start(s)),
    decreases s.len(),
{
    if s.len() == 0 {
        assert(s + blanks =~= blanks);
        lemma_trimmed_start(blanks, Seq::empty());
        assert(blanks + Seq::<char>::empty() =~= blanks);
    } else if is_space(s[0]) {
        assert((s + blanks)[0] == s[0]);
        assert((s + blanks).drop_first() =~= s.drop_first() + blanks);
        lemma_start_before_end(s.drop_first(), blanks);
    } else {
        assert((s + blanks)[0] == s[0]);
        lemma_trimmed_end(s, blanks);
    }
}

/// Blanks around a time do not matter.
pub proof fn law_blanks_around_do_not_matter(
    before: Seq<char>,
    text: Seq<char>,
    after: Seq<char>,
    now: i64,
)
    requires
        is_blank(before),
        is_blank(after),
    ensures
        timestamp_at(before + text + after, now) == timestamp_at(text, now),
        trimmed(before + text + after) == trimmed(text),
{
    assert(before + text + after =~= before + (text + after));
    lemma_trimmed_start(before, text + after);
    lemma_start_before_end(text, after);
}

/// A text that neither begins nor ends with white space is not trimmed.
proof fn lemma_not_trimmed(s: Seq<char>)
    requires
        s.len() > 0,
        !is_space(s[0]),
        !is_space(s.last()),
    ensures
        trimmed(s) == s,
{
}

// ---------------------------------------------------------------------------
// Points in time
// ---------------------------------------------------------------------------

/// The present is what `now` means, in any case.
pub proof fn law_now_is_now(a: char, b: char, c: char, now: i64)
    requires
        a == 'n' || a == 'N',
        b == 'o' || b == 'O',
        c == 'w' || c == 'W',
    ensures
        timestamp_at(seq![a, b, c], now) == Ok::<int, TimeError>(now as int),
{
    lemma_not_trimmed(seq![a, b, c]);
}

/// A whole number is a time since the epoch: in milliseconds where it has at least thirteen
/// places, and in seconds where it has fewer.
pub proof fn law_numbers_are_times_since_the_epoch(n: nat, now: i64)
    requires
        n <= i64::MAX,
        rfc3339_millis(decimal(n)) is None,
    ensures
        timestamp_at(decimal(n), now) == Ok::<int, TimeError>(
            if byte_len(decimal(n)) >= 13 {
                n as int
            } else {
                n as int * 1_000
            },
        ),
{
    let s = decimal(n);
    law_decimals_read_back(n);
    assert(is_digit(s[0]));
    assert(is_digit(s[s.len() - 1]));
    lemma_digit_is_no_space(s[0]);
    lemma_digit_is_no_space(s.last());
    lemma_not_trimmed(s);
    assert(after_sign(s) == s);
    assert(number(s) == Some(n as int));
    assert(!says_now(s));
}

proof fn lemma_digit_is_no_space(c: char)
    requires
        is_digit(c),
    ensures
        !is_space(c),
        c != ' ',
{
    assert('0' as u32 == 48 && '9' as u32 == 57);
}

/// A point in time that RFC 3339 describes is that point, in milliseconds.
pub proof fn law_dates_are_read_as_such(text: Seq<char>, now: i64)
    requires
        !says_now(trimmed(text)),
        rfc3339_millis(trimmed(text)) is Some,
    ensures
        timestamp_at(text, now) == Ok::<int, TimeError>(rfc3339_millis(trimmed(text))->Some_0 as int),
{
}

// ---------------------------------------------------------------------------
// Durations
// ---------------------------------------------------------------------------

/// The milliseconds of a unit of time.
pub open spec fn length_of(unit: char) -> nat {
    if unit == 's' {
        1_000
    } else if unit == 'm' {
        60 * 1_000
    } else if unit == 'h' {
        60 * 60 * 1_000
    } else if unit == 'd' {
        24 * 60 * 60 * 1_000
    } else {
        7 * 24 * 60 * 60 * 1_000
    }
}

/// Whether a character names a unit of time.
pub open spec fn is_unit(c: char) -> bool {
    c == 's' || c == 'm' || c == 'h' || c == 'd' || c == 'w'
}

proof fn lemma_digits_so_far(s: Seq<char>)
    requires
        all_digits(s),
    ensures
        duration_so_far(s) == Ok::<(nat, Seq<char>), TimeError>((0, s)),
    decreases s.len(),
{
    if s.len() > 0 {
        assert forall|i: int| 0 <= i < s.drop_last().len() implies is_digit(
            #[trigger] s.drop_last()[i],
        ) by {
            assert(is_digit(s[i]));
        }
        lemma_digits_so_far(s.drop_last());
        assert(is_digit(s[s.len() - 1]));
        assert(s.drop_last().push(s.last()) =~= s);
    } else {
        assert(s =~= Seq::<char>::empty());
    }
}

proof fn lemma_no_blanks(s: Seq<char>)
    requires
        !s.contains(' '),
    ensures
        without_blanks(s) == s,
    decreases s.len(),
{
    if s.len() > 0 {
        assert(s.contains(s[s.len() - 1]));
        assert forall|i: int| 0 <= i < s.drop_last().len() implies s.drop_last()[i] != ' ' by {
            assert(s.contains(s[i]));
        }
        lemma_no_blanks(s.drop_last());
        assert(s.drop_last().push(s.last()) =~= s);
    } else {
        assert(without_blanks(s) =~= s);
    }
}

proof fn lemma_amount(n: nat, unit: char)
    requires
        is_unit(unit),
        n * length_of(unit) <= u64::MAX,
        n <= u64::MAX,
    ensures
        ({
            let s = decimal(n).push(unit);
            &&& s.len() > 0
            &&& !s.contains(' ')
            &&& !is_space(s[0])
            &&& !is_space(s.last())
            &&& duration_so_far(s) == Ok::<(nat, Seq<char>), TimeError>(
                (n * length_of(unit), Seq::empty()),
            )
            &&& s[0] != 'n' && s[0] != 'N'
        }),
{
    let d = decimal(n);
    let s = d.push(unit);
    law_decimals_read_back(n);
    lemma_digits_so_far(d);
    assert(is_digit(d[0]));
    lemma_digit_is_no_space(d[0]);
    assert(s[0] == d[0]);
    assert forall|i: int| 0 <= i < s.len() implies s[i] != ' ' by {
        if i < d.len() {
            assert(is_digit(d[i]));
            lemma_digit_is_no_space(d[i]);
        }
    }
    assert(s.drop_last() =~= d);
    assert(unit_ms(unit) == Some(length_of(unit)));
    assert(!is_digit(unit));
    assert('0' as u32 == 48 && '9' as u32 == 57);
    assert(digits_value(d) == n);
    let product = n * length_of(unit);
    assert(capped(0 + capped(product)) == product);
}

/// A number with a unit behind it lasts that many of the unit: seconds, minutes, hours, days
/// or weeks.
pub proof fn law_amounts_last_that_long(n: nat, unit: char)
    requires
        is_unit(unit),
        n <= u64::MAX,
        n * length_of(unit) <= u64::MAX,
    ensures
        duration_ms(decimal(n).push(unit)) == Ok::<nat, TimeError>(n * length_of(unit)),
{
    let s = decimal(n).push(unit);
    lemma_amount(n, unit);
    lemma_not_trimmed(s);
    lemma_no_blanks(s);
}

proof fn lemma_so_far_adds(a: Seq<char>, b: Seq<char>)
    requires
        duration_so_far(a) is Ok,
        duration_so_far(a)->Ok_0.1.len() == 0,
        duration_so_far(b) is Ok,
    ensures
        duration_so_far(a + b) == Ok::<(nat, Seq<char>), TimeError>(
            (
                capped(duration_so_far(a)->Ok_0.0 + duration_so_far(b)->Ok_0.0),
                duration_so_far(b)->Ok_0.1,
            ),
        ),
    decreases b.len(),
{
    lemma_so_far_is_capped(a);
    if b.len() == 0 {
        assert(a + b =~= a);
        assert(duration_so_far(a)->Ok_0.1 =~= Seq::<char>::empty());
    } else {
        assert((a + b).drop_last() =~= a + b.drop_last());
        assert((a + b).last() == b.last());
        lemma_so_far_adds(a, b.drop_last());
        lemma_so_far_is_capped(b);
    }
}

proof fn lemma_so_far_is_capped(s: Seq<char>)
    ensures
        duration_so_far(s) is Ok ==> duration_so_far(s)->Ok_0.0 <= u64::MAX,
    decreases s.len(),
{
    if s.len() > 0 {
        lemma_so_far_is_capped(s.drop_last());
    }
}

proof fn lemma_blanks_inside(a: Seq<char>, blanks: Seq<char>, b: Seq<char>)
    requires
        is_blank(blanks),
        !a.contains(' '),
        !b.contains(' '),
    ensures
        without_blanks(a + blanks + b) == a + b,
    decreases b.len(), blanks.len(),
{
    let s = a + blanks + b;
    if b.len() > 0 {
        assert(b.contains(b[b.len() - 1]));
        assert(s.drop_last() =~= a + blanks + b.drop_last());
        assert(s.last() == b.last());
        assert forall|i: int| 0 <= i < b.drop_last().len() implies b.drop_last()[i] != ' ' by {
            assert(b.contains(b[i]));
        }
        lemma_blanks_inside(a, blanks, b.drop_last());
        assert((a + b.drop_last()).push(b.last()) =~= a + b);
    } else if blanks.len() > 0 {
        let fewer = blanks.drop_last();
        assert(s.drop_last() =~= a + fewer + b);
        assert(blanks[blanks.len() - 1] == ' ');
        assert(s.last() == ' ');
        assert forall|i: int| 0 <= i < fewer.len() implies fewer[i] == ' ' by {
            assert(fewer[i] == blanks[i]);
        }
        lemma_blanks_inside(a, fewer, b);
    } else {
        assert(s =~= a);
        lemma_no_blanks(a);
        assert(a + b =~= a);
    }
}

/// Durations one after the other add up, with blanks between them or without.
pub proof fn law_durations_add_up(a: Seq<char>, blanks: Seq<char>, b: Seq<char>)
    requires
        is_blank(blanks),
        a.len() > 0,
        b.len() > 0,
        forall|i: int| 0 <= i < a.len() ==> !is_space(#[trigger] a[i]),
        forall|i: int| 0 <= i < b.len() ==> !is_space(#[trigger] b[i]),
        duration_ms(a) is Ok,
        duration_ms(b) is Ok,
        duration_ms(a)->Ok_0 + duration_ms(b)->Ok_0 <= u64::MAX,
    ensures
        duration_ms(a + blanks + b) == Ok::<nat, TimeError>(
            duration_ms(a)->Ok_0 + duration_ms(b)->Ok_0,
        ),
{
    assert(is_space(' '));
    assert forall|i: int| 0 <= i < a.len() implies a[i] != ' ' by {
        assert(!is_space(a[i]));
    }
    assert forall|i: int| 0 <= i < b.len() implies b[i] != ' ' by {
        assert(!is_space(b[i]));
    }
    let s = a + blanks + b;
    assert(s[0] == a[0] && s.last() == b.last());
    assert(!is_space(a[0]) && !is_space(a[a.len() - 1]));
    assert(!is_space(b[0]) && !is_space(b[b.len() - 1]));
    lemma_not_trimmed(a);
    lemma_not_trimmed(b);
    lemma_not_trimmed(s);
    lemma_no_blanks(a);
    lemma_no_blanks(b);
    lemma_blanks_inside(a, blanks, b);
    lemma_so_far_adds(a, b);
    assert(duration_so_far(a)->Ok_0.1.len() == 0);
}

/// A duration ago is that long before now.
pub proof fn law_ago_is_before_now(n: nat, unit: char, now: i64)
    requires
        is_unit(unit),
        n * length_of(unit) <= i64::MAX,
        n <= i64::MAX,
        rfc3339_millis(decimal(n).push(unit) + " ago"@) is None,
    ensures
        timestamp_at(decimal(n).push(unit) + " ago"@, now) == Ok::<int, TimeError>(
            now - n * length_of(unit),
        ),
{
    let d = decimal(n).push(unit);
    let s = d + " ago"@;
    reveal_strlit(" ago");
    lemma_amount(n, unit);
    law_amounts_last_that_long(n, unit);
    assert(s[0] == d[0]);
    assert(s.last() == 'o');
    assert(!is_space('o'));
    lemma_not_trimmed(s);
    assert(s.skip(d.len() as int) =~= " ago"@);
    assert(finishes_with(s, " ago"@));
    assert(s.take(s.len() - 4) =~= d);
    assert(before_ago(s) == Some(d));
    let rest = after_sign(s);
    assert(rest.last() == 'o');
    assert(!is_digit('o')) by {
        assert('9' as u32 == 57 && 'o' as u32 == 111);
    }
    assert(!all_digits(rest)) by {
        assert(rest[rest.len() - 1] == 'o');
    }
    assert(number(s) is None);
}

// ---------------------------------------------------------------------------
// How long ago
// ---------------------------------------------------------------------------

/// Whether a text says how many of a unit lie between a time and now.
pub open spec fn says_how_long(
    s: Seq<char>,
    n: nat,
    unit: Seq<char>,
    is_past: bool,
) -> bool {
    let noun = if n == 1 {
        unit
    } else {
        unit + "s"@
    };
    if is_past {
        s == decimal(n) + " "@ + noun + " ago"@
    } else {
        s == "in "@ + decimal(n) + " "@ + noun
    }
}

/// How far a time lies from now is said in whole seconds below a minute, in whole minutes
/// below an hour, in whole hours below a day and in whole days from there on.
pub proof fn law_distances_in_words(ms: i64, now: i64, n: nat, rest: nat, is_past: bool)
    requires
        !is_past ==> n + rest > 0,
    ensures
        n < 60 && rest < 1_000 && now - ms == (if is_past {
            n as int * 1_000 + rest
        } else {
            -(n as int * 1_000 + rest)
        }) ==> says_how_long(human_text(ms, now), n, "second"@, is_past),
        1 <= n < 60 && rest < 60_000 && now - ms == (if is_past {
            n as int * 60_000 + rest
        } else {
            -(n as int * 60_000 + rest)
        }) ==> says_how_long(human_text(ms, now), n, "minute"@, is_past),
        1 <= n < 24 && rest < 3_600_000 && now - ms == (if is_past {
            n as int * 3_600_000 + rest
        } else {
            -(n as int * 3_600_000 + rest)
        }) ==> says_how_long(human_text(ms, now), n, "hour"@, is_past),
        1 <= n && rest < 86_400_000 && now - ms == (if is_past {
            n as int * 86_400_000 + rest
        } else {
            -(n as int * 86_400_000 + rest)
        }) ==> says_how_long(human_text(ms, now), n, "day"@, is_past),
{
}

/// A time that the machine's clock can show is shown as it shows it, and any other as a
/// number of milliseconds.
pub proof fn law_times_beyond_the_clock(ms: i64, shown: Seq<char>)
    ensures
        exact_text(ms, Some(shown)) == shown,
        ms >= 0 ==> exact_text(ms, None) == decimal(ms as nat) + " ms"@,
{
}

// ---------------------------------------------------------------------------
// What is no time
// ---------------------------------------------------------------------------

/// A number may have a sign in front.
pub proof fn law_signs(n: nat)
    ensures
        number(decimal(n)) == Some(n as int),
        number(seq!['+'] + decimal(n)) == Some(n as int),
        number(seq!['-'] + decimal(n)) == Some(-(n as int)),
        number(Seq::empty()) is None,
{
    law_decimals_read_back(n);
    let d = decimal(n);
    assert(is_digit(d[0]));
    assert('+' as u32 == 43 && '-' as u32 == 45 && '0' as u32 == 48);
    assert((seq!['+'] + d).skip(1) =~= d);
    assert((seq!['-'] + d).skip(1) =~= d);
    assert((seq!['+'] + d).drop_first() =~= d);
    assert((seq!['-'] + d).drop_first() =~= d);
}

/// A number without a unit behind it is no duration, nor is nothing at all, a unit without a
/// number before it, or a number with another letter behind it.
pub proof fn law_what_is_no_duration(n: nat, c: char)
    requires
        !is_digit(c),
        !is_space(c),
    ensures
        duration_ms(Seq::empty()) == Err::<nat, TimeError>(TimeError::EmptyDuration),
        duration_ms(decimal(n)) == Err::<nat, TimeError>(TimeError::MissingUnit),
        duration_ms(seq![c]) == Err::<nat, TimeError>(TimeError::InvalidDuration),
        n <= u64::MAX && !is_unit(c) ==> duration_ms(decimal(n).push(c)) == Err::<nat, TimeError>(
            TimeError::UnknownUnit(c),
        ),
        n > u64::MAX ==> duration_ms(decimal(n).push(c)) == Err::<nat, TimeError>(
            TimeError::NumberTooLarge,
        ),
{
    let d = decimal(n);
    law_decimals_read_back(n);
    lemma_digits_so_far(d);
    assert(is_digit(d[0]) && is_digit(d[d.len() - 1]));
    lemma_digit_is_no_space(d[0]);
    lemma_digit_is_no_space(d.last());
    assert forall|i: int| 0 <= i < d.len() implies d[i] != ' ' by {
        assert(is_digit(d[i]));
        lemma_digit_is_no_space(d[i]);
    }
    assert(is_space(' '));
    lemma_not_trimmed(d);
    lemma_no_blanks(d);
    let one = seq![c];
    lemma_not_trimmed(one);
    lemma_no_blanks(one);
    assert(one.drop_last() =~= Seq::<char>::empty());
    assert(duration_so_far(one.drop_last()) == Ok::<(nat, Seq<char>), TimeError>((0, Seq::empty())));
    let s = d.push(c);
    assert(s[0] == d[0] && s.last() == c);
    assert forall|i: int| 0 <= i < s.len() implies s[i] != ' ' by {
        if i < d.len() {
            assert(s[i] == d[i]);
        }
    }
    lemma_not_trimmed(s);
    lemma_no_blanks(s);
    assert(s.drop_last() =~= d);
    assert(without_blanks(Seq::empty()) =~= Seq::<char>::empty());
    assert(trimmed(Seq::empty()) =~= Seq::<char>::empty());
}

/// A text that is neither `now` nor a date nor a number, and does not end in a blank and
/// `ago`, is no time.
pub proof fn law_what_is_no_time(text: Seq<char>, now: i64)
    requires
        text.len() > 0,
        !is_space(text[0]),
        !is_space(text.last()),
        text.len() != 3,
        rfc3339_millis(text) is None,
        number(text) is None,
        !finishes_with(text, " ago"@),
    ensures
        timestamp_at(text, now) == Err::<int, TimeError>(TimeError::Unsupported),
{
    lemma_not_trimmed(text);
}

/// A time that the clock can show reads as its date, its time of day to the millisecond and
/// its zone.
pub proof fn law_times_read_as_dates(ms: i64, offset_s: i32)
    ensures
        -8_334_601_228_800_000 <= ms <= 8_210_266_876_799_999 ==> text_in_zone(ms, offset_s)
            == Some(zoned_text(ms, offset_s, "%Y-%m-%d %H:%M:%S%.3f %:z"@)),
        !(-8_334_601_228_800_000 <= ms <= 8_210_266_876_799_999) ==> text_in_zone(
            ms,
            offset_s,
        ) is None,
{
}

} // verus!
