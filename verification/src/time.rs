//! Points in time: reading them from what a user types, and showing them.
use chrono::TimeZone;
use vstd::prelude::*;
use vstd::string::*;

use crate::config::DAY_MS;
use crate::text::{
    byte_len,
    chars_of,
    concat,
    concat3,
    decimal,
    decimal_text,
    finishes_with,
    lemma_byte_len_at_least,
    opt_text,
    signed_decimal,
    signed_decimal_text,
    size_of_text,
    text_finishes_with,
    text_of,
    trim,
    trimmed,
};

verus! {

/// The latest time that `chrono` can hold, in milliseconds since the epoch.
pub const MAX_CLOCK_MS: i64 = 8_210_266_876_799_999;

/// The earliest time that `chrono` can hold, in milliseconds since the epoch.
pub const MIN_CLOCK_MS: i64 = -8_334_601_228_800_000;

/// `chrono::Utc::now`, in milliseconds since the epoch. The clock is read at each call;
/// what it shows lies between the epoch and the latest time that `chrono` can hold.
#[verifier::external_body]
pub fn now_ms() -> (ms: i64)
    ensures
        0 <= ms <= MAX_CLOCK_MS,
{
    chrono::Utc::now().timestamp_millis()
}

/// The time that an RFC 3339 text stands for, in milliseconds since the epoch, as
/// `chrono::DateTime::parse_from_rfc3339` reads it.
pub uninterp spec fn rfc3339_millis(text: Seq<char>) -> Option<i64>;

/// `chrono::DateTime::parse_from_rfc3339`, its result in milliseconds since the epoch.
/// The result depends on the text alone.
#[verifier::external_body]
fn parse_rfc3339(text: &str) -> (res: Option<i64>)
    ensures
        res == rfc3339_millis(text@),
{
    match chrono::DateTime::parse_from_rfc3339(text) {
        Ok(time) => Some(time.timestamp_millis()),
        Err(_) => None,
    }
}

/// How a time is written out: the date, the time of day down to milliseconds, and the
/// distance of the zone from UTC.
pub const SHOWN_FORMAT: &'static str = "%Y-%m-%d %H:%M:%S%.3f %:z";

/// A time in milliseconds since the epoch, as `chrono` writes it in a format in a zone that
/// is a number of seconds ahead of UTC.
pub uninterp spec fn zoned_text(ms: i64, offset_s: i32, format: Seq<char>) -> Seq<char>;

/// Whether a number of seconds can be the distance of a zone from UTC.
pub open spec fn is_offset(offset_s: i32) -> bool {
    -86_400 < offset_s < 86_400
}

/// `chrono::Local.timestamp_millis_opt` and `format`: a time in the zone of this machine.
/// There is a text exactly for the times that `chrono` can hold. It depends on the time,
/// the format and how far the zone of the machine is ahead of UTC at that time, which is
/// less than a day. How far that is, is not said. `chrono` panics on formats that it does
/// not know, so the one in use is asked for.
#[verifier::external_body]
fn local_text(ms: i64, format: &str) -> (res: Option<String>)
    requires
        format@ == SHOWN_FORMAT@,
    ensures
        res is Some <==> MIN_CLOCK_MS <= ms <= MAX_CLOCK_MS,
        res matches Some(text) ==> exists|offset_s: i32|
            is_offset(offset_s) && text@ == #[trigger] zoned_text(ms, offset_s, format@),
{
    match chrono::Local.timestamp_millis_opt(ms).single() {
        Some(time) => Some(time.format(format).to_string()),
        None => None,
    }
}

// ---------------------------------------------------------------------------
// Numbers
// ---------------------------------------------------------------------------

/// Whether a character is an ASCII digit.
pub open spec fn is_digit(c: char) -> bool {
    '0' <= c <= '9'
}

/// Whether all characters are ASCII digits.
pub open spec fn all_digits(s: Seq<char>) -> bool {
    forall|i: int| 0 <= i < s.len() ==> is_digit(#[trigger] s[i])
}

/// The number that digits stand for.
pub open spec fn digits_value(s: Seq<char>) -> nat
    decreases s.len(),
{
    if s.len() == 0 {
        0
    } else {
        (10 * digits_value(s.drop_last()) + (s.last() as int - '0' as int)) as nat
    }
}

/// The characters after a sign.
pub open spec fn after_sign(s: Seq<char>) -> Seq<char> {
    if s.len() > 0 && (s[0] == '-' || s[0] == '+') {
        s.skip(1)
    } else {
        s
    }
}

/// The whole number that a text stands for: digits, with a sign in front or without.
pub open spec fn number(s: Seq<char>) -> Option<int> {
    let digits = after_sign(s);
    if digits.len() == 0 || !all_digits(digits) {
        None
    } else if s[0] == '-' {
        Some(-digits_value(digits))
    } else {
        Some(digits_value(digits) as int)
    }
}

proof fn lemma_digits_value_grows(s: Seq<char>, n: int)
    requires
        0 <= n <= s.len(),
        all_digits(s),
    ensures
        digits_value(s.take(n)) <= digits_value(s),
    decreases s.len(),
{
    if n == s.len() {
        assert(s.take(n) =~= s);
    } else {
        assert(s.drop_last().take(n) =~= s.take(n));
        assert forall|i: int| 0 <= i < s.drop_last().len() implies is_digit(
            #[trigger] s.drop_last()[i],
        ) by {
            assert(is_digit(s[i]));
        }
        lemma_digits_value_grows(s.drop_last(), n);
        assert(is_digit(s[s.len() - 1]));
    }
}

/// The digits from `from` on, as a number; nothing where it is above `limit`.
fn digits_number(v: &Vec<char>, from: usize, limit: u64) -> (res: Option<u64>)
    requires
        from <= v@.len(),
        all_digits(v@.skip(from as int)),
    ensures
        match res {
            Some(n) => n == digits_value(v@.skip(from as int)) && n <= limit,
            None => digits_value(v@.skip(from as int)) > limit,
        },
{
    let ghost all = v@.skip(from as int);
    let mut n: u64 = 0;
    let mut i: usize = from;
    assert(all.take(0) =~= Seq::<char>::empty());
    while i < v.len()
        invariant
            from <= i <= v@.len(),
            all == v@.skip(from as int),
            all_digits(all),
            n == digits_value(all.take(i - from)),
            n <= limit,
        decreases v@.len() - i,
    {
        let ghost done = all.take(i + 1 - from);
        proof {
            assert(all[i - from] == v@[i as int]);
            assert(is_digit(all[i - from]));
            assert(done.drop_last() =~= all.take(i - from));
            assert(done.last() == v@[i as int]);
            lemma_digits_value_grows(all, i + 1 - from);
        }
        let d: u64 = v[i] as u64 - '0' as u64;
        let next: u128 = 10 * (n as u128) + d as u128;
        if next > limit as u128 {
            return None;
        }
        n = next as u64;
        i += 1;
    }
    assert(all.take(i - from) =~= all);
    Some(n)
}

/// The whole number that a text stands for, where it fits in 64 bits.
pub fn parse_whole(s: &str) -> (res: Option<i64>)
    ensures
        res == (match number(s@) {
            Some(n) => if i64::MIN <= n <= i64::MAX {
                Some(n as i64)
            } else {
                None
            },
            None => None,
        }),
{
    let v = chars_of(s);
    let signed = v.len() > 0 && (v[0] == '-' || v[0] == '+');
    let from: usize = if signed {
        1
    } else {
        0
    };
    let ghost digits = after_sign(s@);
    assert(v@.skip(from as int) =~= digits);
    if from == v.len() {
        return None;
    }
    let mut i: usize = from;
    while i < v.len()
        invariant
            from <= i <= v@.len(),
            digits == v@.skip(from as int),
            digits == after_sign(s@),
            forall|j: int| 0 <= j < i - from ==> is_digit(#[trigger] digits[j]),
        decreases v@.len() - i,
    {
        assert(digits[i - from] == v@[i as int]);
        if v[i] < '0' || v[i] > '9' {
            assert(!is_digit(digits[i - from]));
            return None;
        }
        i += 1;
    }
    if v[0] == '-' {
        match digits_number(&v, from, 0x8000_0000_0000_0000) {
            Some(n) => Some((-(n as i128)) as i64),
            None => None,
        }
    } else {
        match digits_number(&v, from, 0x7fff_ffff_ffff_ffff) {
            Some(n) => Some(n as i64),
            None => None,
        }
    }
}

// ---------------------------------------------------------------------------
// Durations
// ---------------------------------------------------------------------------

/// Why a text is not a point in time.
#[derive(Debug, Clone, Copy, PartialEq, Eq, Structural)]
pub enum TimeError {
    /// It has none of the known forms.
    Unsupported,
    /// A relative time without a duration.
    EmptyDuration,
    /// A unit without a number before it.
    InvalidDuration,
    /// A number that does not fit in 64 bits.
    NumberTooLarge,
    /// A unit that is not known.
    UnknownUnit(char),
    /// A number without a unit after it.
    MissingUnit,
}

/// A text without its blanks.
pub open spec fn without_blanks(s: Seq<char>) -> Seq<char>
    decreases s.len(),
{
    if s.len() == 0 {
        Seq::empty()
    } else if s.last() == ' ' {
        without_blanks(s.drop_last())
    } else {
        without_blanks(s.drop_last()).push(s.last())
    }
}

/// The milliseconds of one unit of time.
pub open spec fn unit_ms(c: char) -> Option<nat> {
    if c == 's' {
        Some(1_000)
    } else if c == 'm' {
        Some(60_000)
    } else if c == 'h' {
        Some(3_600_000)
    } else if c == 'd' {
        Some(86_400_000)
    } else if c == 'w' {
        Some(604_800_000)
    } else {
        None
    }
}

/// A number, or the largest that fits in 64 bits.
pub open spec fn capped(n: nat) -> nat {
    if n <= u64::MAX {
        n
    } else {
        u64::MAX as nat
    }
}

/// What a duration that was read so far comes to, and the digits still without a unit.
pub open spec fn duration_so_far(s: Seq<char>) -> Result<(nat, Seq<char>), TimeError>
    decreases s.len(),
{
    if s.len() == 0 {
        Ok((0, Seq::empty()))
    } else {
        let c = s.last();
        match duration_so_far(s.drop_last()) {
            Err(e) => Err(e),
            Ok((total, digits)) => if is_digit(c) {
                Ok((total, digits.push(c)))
            } else if digits.len() == 0 {
                Err(TimeError::InvalidDuration)
            } else if digits_value(digits) > u64::MAX {
                Err(TimeError::NumberTooLarge)
            } else {
                match unit_ms(c) {
                    None => Err(TimeError::UnknownUnit(c)),
                    Some(unit) => Ok(
                        (capped(total + capped(digits_value(digits) * unit)), Seq::empty()),
                    ),
                }
            },
        }
    }
}

/// The milliseconds of a duration such as `1h 30m`.
pub open spec fn duration_ms(input: Seq<char>) -> Result<nat, TimeError> {
    let cleaned = without_blanks(trimmed(input));
    if cleaned.len() == 0 {
        Err(TimeError::EmptyDuration)
    } else {
        match duration_so_far(cleaned) {
            Err(e) => Err(e),
            Ok((total, digits)) => if digits.len() > 0 {
                Err(TimeError::MissingUnit)
            } else {
                Ok(total)
            },
        }
    }
}

fn drop_blanks(s: &str) -> (v: Vec<char>)
    ensures
        v@ == without_blanks(s@),
{
    let all = chars_of(s);
    let mut v: Vec<char> = Vec::new();
    let mut i: usize = 0;
    while i < all.len()
        invariant
            i <= all@.len(),
            v@ == without_blanks(all@.take(i as int)),
        decreases all@.len() - i,
    {
        assert(all@.take(i + 1).drop_last() =~= all@.take(i as int));
        if all[i] != ' ' {
            v.push(all[i]);
        }
        i += 1;
    }
    assert(all@.take(i as int) =~= all@);
    v
}

fn unit_of(c: char) -> (res: Option<u64>)
    ensures
        match res {
            Some(n) => unit_ms(c) == Some(n as nat),
            None => unit_ms(c) is None,
        },
{
    if c == 's' {
        Some(1_000)
    } else if c == 'm' {
        Some(60_000)
    } else if c == 'h' {
        Some(3_600_000)
    } else if c == 'd' {
        Some(DAY_MS as u64)
    } else if c == 'w' {
        Some(7 * DAY_MS as u64)
    } else {
        None
    }
}

proof fn lemma_duration_fails(s: Seq<char>, n: int)
    requires
        0 <= n <= s.len(),
        duration_so_far(s.take(n)) is Err,
    ensures
        duration_so_far(s) == duration_so_far(s.take(n)),
    decreases s.len(),
{
    if n == s.len() {
        assert(s.take(n) =~= s);
    } else {
        assert(s.drop_last().take(n) =~= s.take(n));
        lemma_duration_fails(s.drop_last(), n);
    }
}

fn capped_product(a: u64, b: u64) -> (r: u64)
    ensures
        r == capped((a * b) as nat),
{
    assert(0 <= (a as u128) * (b as u128) <= 0xffff_ffff_ffff_ffff * 0xffff_ffff_ffff_ffff)
        by (nonlinear_arith)
        requires
            0 <= a <= 0xffff_ffff_ffff_ffff,
            0 <= b <= 0xffff_ffff_ffff_ffff,
    ;
    let p: u128 = a as u128 * b as u128;
    if p > u64::MAX as u128 {
        u64::MAX
    } else {
        p as u64
    }
}

/// The milliseconds of a duration such as `1h 30m`.
pub fn parse_compound_duration_ms(input: &str) -> (res: Result<u64, TimeError>)
    ensures
        match res {
            Ok(n) => duration_ms(input@) == Ok::<nat, TimeError>(n as nat),
            Err(e) => duration_ms(input@) == Err::<nat, TimeError>(e),
        },
{
    let inner = trim(input);
    let cleaned = drop_blanks(inner.as_str());
    if cleaned.len() == 0 {
        return Err(TimeError::EmptyDuration);
    }
    let mut total: u64 = 0;
    let mut digits: Vec<char> = Vec::new();
    let mut i: usize = 0;
    while i < cleaned.len()
        invariant
            i <= cleaned@.len(),
            cleaned@ == without_blanks(trimmed(input@)),
            cleaned@.len() > 0,
            all_digits(digits@),
            duration_so_far(cleaned@.take(i as int)) == Ok::<(nat, Seq<char>), TimeError>(
                (total as nat, digits@),
            ),
        decreases cleaned@.len() - i,
    {
        let c: char = cleaned[i];
        let ghost done = cleaned@.take(i + 1);
        proof {
            assert(done.drop_last() =~= cleaned@.take(i as int));
            assert(done.last() == c);
        }
        if '0' <= c && c <= '9' {
            digits.push(c);
        } else {
            if digits.len() == 0 {
                proof {
                    lemma_duration_fails(cleaned@, i + 1);
                }
                return Err(TimeError::InvalidDuration);
            }
            assert(digits@.skip(0) =~= digits@);
            let value: u64 = match digits_number(&digits, 0, u64::MAX) {
                Some(n) => n,
                None => {
                    proof {
                        lemma_duration_fails(cleaned@, i + 1);
                    }
                    return Err(TimeError::NumberTooLarge);
                },
            };
            digits = Vec::new();
            let unit: u64 = match unit_of(c) {
                Some(n) => n,
                None => {
                    proof {
                        lemma_duration_fails(cleaned@, i + 1);
                    }
                    return Err(TimeError::UnknownUnit(c));
                },
            };
            total = total.saturating_add(capped_product(value, unit));
        }
        i += 1;
    }
    assert(cleaned@.take(i as int) =~= cleaned@);
    if digits.len() > 0 {
        return Err(TimeError::MissingUnit);
    }
    Ok(total)
}

// ---------------------------------------------------------------------------
// Points in time
// ---------------------------------------------------------------------------

/// Whether a text reads `now`, in any case.
pub open spec fn says_now(s: Seq<char>) -> bool {
    &&& s.len() == 3
    &&& s[0] == 'n' || s[0] == 'N'
    &&& s[1] == 'o' || s[1] == 'O'
    &&& s[2] == 'w' || s[2] == 'W'
}

/// The text in front of ` ago`.
pub open spec fn before_ago(s: Seq<char>) -> Option<Seq<char>> {
    if finishes_with(s, " ago"@) {
        Some(s.take(s.len() - " ago"@.len()))
    } else {
        None
    }
}

/// The point in time that a text stands for at a time `now`: that time itself, an RFC
/// 3339 time, seconds or (from thirteen bytes on) milliseconds since the epoch, or a
/// duration ago.
pub open spec fn timestamp_at(input: Seq<char>, now: i64) -> Result<int, TimeError> {
    let text = trimmed(input);
    if says_now(text) {
        Ok(now as int)
    } else if rfc3339_millis(text) is Some {
        Ok(rfc3339_millis(text)->Some_0 as int)
    } else if number(text) is Some && i64::MIN <= number(text)->Some_0 <= i64::MAX {
        if byte_len(text) >= 13 {
            Ok(number(text)->Some_0)
        } else {
            Ok(number(text)->Some_0 * 1_000)
        }
    } else {
        match before_ago(text) {
            Some(duration) => match duration_ms(duration) {
                Ok(ms) => Ok(now - (ms as i64)),
                Err(e) => Err(e),
            },
            None => Err(TimeError::Unsupported),
        }
    }
}

/// Whether what a relative time comes to can be told at a time `now`. The duration is
/// taken as a signed number.
pub open spec fn ago_fits(input: Seq<char>, now: i64) -> bool {
    match before_ago(trimmed(input)) {
        Some(duration) => match duration_ms(duration) {
            Ok(ms) => i64::MIN <= now - (ms as i64) <= i64::MAX,
            Err(_) => true,
        },
        None => true,
    }
}

fn reads_now(s: &str) -> (r: bool)
    ensures
        r == says_now(s@),
{
    let v = chars_of(s);
    v.len() == 3 && (v[0] == 'n' || v[0] == 'N') && (v[1] == 'o' || v[1] == 'O') && (v[2] == 'w'
        || v[2] == 'W')
}

fn duration_before_ago(s: &str) -> (res: Option<String>)
    ensures
        opt_text(res) == before_ago(s@),
{
    if !text_finishes_with(s, " ago") {
        return None;
    }
    let v = chars_of(s);
    proof {
        reveal_strlit(" ago");
    }
    let n: usize = v.len() - 4;
    let head = text_of(&v, 0, n);
    assert(head@ =~= s@.take(n as int));
    Some(head)
}

/// Whether the duration that a relative time names can be taken from every time that the
/// clock can show. Texts of other forms always can.
pub fn is_relative_time_in_range(input: &str) -> (r: bool)
    ensures
        r == forall|now: i64| 0 <= now <= MAX_CLOCK_MS ==> #[trigger] ago_fits(input@, now),
{
    let text = trim(input);
    match duration_before_ago(text.as_str()) {
        None => true,
        Some(duration) => match parse_compound_duration_ms(duration.as_str()) {
            Err(_) => true,
            Ok(ms) => {
                let d: i64 = ms as i64;
                let r = d >= MAX_CLOCK_MS - i64::MAX;
                assert(r == ago_fits(input@, MAX_CLOCK_MS));
                r
            },
        },
    }
}

proof fn lemma_digits_value_bound(s: Seq<char>, n: nat)
    requires
        all_digits(s),
        s.len() <= n,
    ensures
        digits_value(s) < vstd::arithmetic::power::pow(10, n),
    decreases n,
{
    vstd::arithmetic::power::lemma_pow_positive(10, n);
    if s.len() > 0 {
        let m = (n - 1) as nat;
        assert forall|i: int| 0 <= i < s.drop_last().len() implies is_digit(
            #[trigger] s.drop_last()[i],
        ) by {
            assert(is_digit(s[i]));
        }
        lemma_digits_value_bound(s.drop_last(), m);
        assert(is_digit(s[s.len() - 1]));
        assert(vstd::arithmetic::power::pow(10, n) == 10 * vstd::arithmetic::power::pow(10, m)) by {
            reveal(vstd::arithmetic::power::pow);
        }
    }
}

/// Seconds written in fewer than thirteen bytes can be turned into milliseconds.
proof fn lemma_short_numbers_are_small(s: Seq<char>)
    requires
        byte_len(s) < 13,
        number(s) is Some,
    ensures
        -1_000_000_000_000 < number(s)->Some_0 < 1_000_000_000_000,
{
    lemma_byte_len_at_least(s);
    lemma_digits_value_bound(after_sign(s), 12);
    assert(vstd::arithmetic::power::pow(10, 12) == 1_000_000_000_000) by {
        reveal_with_fuel(vstd::arithmetic::power::pow, 13);
    }
}

/// The point in time that a text stands for at a time `now`.
pub fn parse_timestamp_at(input: &str, now: i64) -> (res: Result<i64, TimeError>)
    requires
        ago_fits(input@, now),
    ensures
        match res {
            Ok(ms) => timestamp_at(input@, now) == Ok::<int, TimeError>(ms as int),
            Err(e) => timestamp_at(input@, now) == Err::<int, TimeError>(e),
        },
{
    let text = trim(input);
    if reads_now(text.as_str()) {
        return Ok(now);
    }
    match parse_rfc3339(text.as_str()) {
        Some(ms) => {
            return Ok(ms);
        },
        None => {},
    }
    match parse_whole(text.as_str()) {
        Some(unix) => {
            if size_of_text(text.as_str()) >= 13 {
                return Ok(unix);
            }
            proof {
                lemma_short_numbers_are_small(text@);
            }
            return Ok(unix * 1_000);
        },
        None => {},
    }
    match duration_before_ago(text.as_str()) {
        Some(duration) => match parse_compound_duration_ms(duration.as_str()) {
            Ok(ms) => Ok(now - (ms as i64)),
            Err(e) => Err(e),
        },
        None => Err(TimeError::Unsupported),
    }
}

/// The point in time that a text stands for now.
pub fn parse_timestamp(input: &str) -> (res: Result<i64, TimeError>)
    requires
        forall|now: i64| 0 <= now <= MAX_CLOCK_MS ==> #[trigger] ago_fits(input@, now),
    ensures
        exists|now: i64|
            0 <= now <= MAX_CLOCK_MS && match res {
                Ok(ms) => #[trigger] timestamp_at(input@, now) == Ok::<int, TimeError>(ms as int),
                Err(e) => timestamp_at(input@, now) == Err::<int, TimeError>(e),
            },
{
    let now: i64 = now_ms();
    assert(ago_fits(input@, now));
    parse_timestamp_at(input, now)
}

impl TimeError {
    /// What the error says of an input to the user.
    pub fn message(&self, input: &str) -> (m: String)
        ensures
            m@ == time_message(*self, input@),
    {
        let text = trim(input);
        let duration = match duration_before_ago(text.as_str()) {
            Some(head) => head,
            None => text.clone(),
        };
        match self {
            TimeError::Unsupported => {
                let m = concat3("unsupported timestamp `", text.as_str(), "`. Use RFC3339, ");
                concat(
                    m.as_str(),
                    "unix seconds/millis, `now`, or values like `2h ago`.",
                )
            },
            TimeError::EmptyDuration => "empty relative duration".to_owned(),
            TimeError::InvalidDuration => concat3(
                "invalid relative duration `",
                duration.as_str(),
                "`",
            ),
            TimeError::NumberTooLarge => "number too large to fit in target type".to_owned(),
            TimeError::UnknownUnit(c) => {
                let mut m = "unsupported duration unit `".to_owned();
                m.push(*c);
                m.append("` in `");
                m.append(duration.as_str());
                m.append("`");
                m
            },
            TimeError::MissingUnit => concat3(
                "missing duration unit in `",
                duration.as_str(),
                "`",
            ),
        }
    }
}

/// What an error says of an input to the user.
pub open spec fn time_message(e: TimeError, input: Seq<char>) -> Seq<char> {
    let text = trimmed(input);
    let duration = match before_ago(text) {
        Some(head) => head,
        None => text,
    };
    match e {
        TimeError::Unsupported => "unsupported timestamp `"@ + text + "`. Use RFC3339, "@
            + "unix seconds/millis, `now`, or values like `2h ago`."@,
        TimeError::EmptyDuration => "empty relative duration"@,
        TimeError::InvalidDuration => "invalid relative duration `"@ + duration + "`"@,
        TimeError::NumberTooLarge => "number too large to fit in target type"@,
        TimeError::UnknownUnit(c) => "unsupported duration unit `"@.push(c) + "` in `"@ + duration
            + "`"@,
        TimeError::MissingUnit => "missing duration unit in `"@ + duration + "`"@,
    }
}

// ---------------------------------------------------------------------------
// Showing
// ---------------------------------------------------------------------------

/// How a time is shown whose text in the zone of the machine is given, if it has one.
pub open spec fn exact_text(ms: i64, local: Option<Seq<char>>) -> Seq<char> {
    match local {
        Some(text) => text,
        None => signed_decimal(ms as int) + " ms"@,
    }
}

/// How a time is shown whose text in the zone of the machine is given, if it has one.
pub fn format_exact_with(ms: i64, local: Option<String>) -> (s: String)
    ensures
        s@ == exact_text(ms, opt_text(local)),
{
    match local {
        Some(text) => text,
        None => {
            let mut s = signed_decimal_text(ms);
            s.append(" ms");
            s
        },
    }
}

/// What a time reads in a zone that is some seconds ahead of UTC; nothing where it lies too
/// far off.
pub open spec fn text_in_zone(ms: i64, offset_s: i32) -> Option<Seq<char>> {
    if MIN_CLOCK_MS <= ms <= MAX_CLOCK_MS {
        Some(zoned_text(ms, offset_s, SHOWN_FORMAT@))
    } else {
        None
    }
}

/// How a time is shown in a zone that is some seconds ahead of UTC.
pub open spec fn exact_in_zone(ms: i64, offset_s: i32) -> Seq<char> {
    exact_text(ms, text_in_zone(ms, offset_s))
}

/// How a time is shown: in the zone of the machine, or as a number of milliseconds where
/// it lies too far off.
pub fn format_exact(ms: i64) -> (s: String)
    ensures
        exists|offset_s: i32|
            is_offset(offset_s) && s@ == #[trigger] exact_in_zone(ms, offset_s),
{
    let local = local_text(ms, SHOWN_FORMAT);
    let ghost shown = opt_text(local);
    let ghost offset_s: i32 = if MIN_CLOCK_MS <= ms <= MAX_CLOCK_MS {
        choose|o: i32| is_offset(o) && local->Some_0@ == #[trigger] zoned_text(ms, o, SHOWN_FORMAT@)
    } else {
        0
    };
    let s = format_exact_with(ms, local);
    assert(shown == text_in_zone(ms, offset_s));
    assert(s@ == exact_in_zone(ms, offset_s));
    s
}

/// The size of a difference.
pub open spec fn size_of(delta: int) -> nat {
    if delta < 0 {
        (-delta) as nat
    } else {
        delta as nat
    }
}

/// A number of whole units: seconds, minutes, hours or days, by the size.
pub open spec fn rounded(size: nat) -> (nat, Seq<char>) {
    if size < 60_000 {
        (size / 1_000, "second"@)
    } else if size < 3_600_000 {
        (size / 60_000, "minute"@)
    } else if size < 86_400_000 {
        (size / 3_600_000, "hour"@)
    } else {
        (size / 86_400_000, "day"@)
    }
}

/// How far a time lies from `now`, in words.
pub open spec fn human_text(ms: i64, now: i64) -> Seq<char> {
    let delta = now - ms;
    let (value, unit) = rounded(size_of(delta));
    let noun = if value == 1 {
        unit
    } else {
        unit + "s"@
    };
    if delta >= 0 {
        decimal(value) + " "@ + noun + " ago"@
    } else {
        "in "@ + decimal(value) + " "@ + noun
    }
}

/// How far a time lies from `now`, in words.
pub fn format_human_at(ms: i64, now: i64) -> (s: String)
    requires
        i64::MIN < now - ms <= i64::MAX,
    ensures
        s@ == human_text(ms, now),
{
    let delta: i64 = now - ms;
    let size: u64 = if delta < 0 {
        (-delta) as u64
    } else {
        delta as u64
    };
    let (value, unit): (u64, &str) = if size < 60_000 {
        (size / 1_000, "second")
    } else if size < 3_600_000 {
        (size / 60_000, "minute")
    } else if size < DAY_MS as u64 {
        (size / 3_600_000, "hour")
    } else {
        (size / (DAY_MS as u64), "day")
    };
    let mut noun = unit.to_owned();
    if value != 1 {
        noun.append("s");
    }
    let amount = decimal_text(value);
    if delta >= 0 {
        let mut s = amount;
        s.append(" ");
        s.append(noun.as_str());
        s.append(" ago");
        s
    } else {
        let mut s = "in ".to_owned();
        s.append(amount.as_str());
        s.append(" ");
        s.append(noun.as_str());
        s
    }
}

/// Whether the distance of a time from every time that the clock can show fits in 64
/// bits.
pub open spec fn is_showable(ms: i64) -> bool {
    ms >= MAX_CLOCK_MS - i64::MAX
}

/// Whether a time can be shown together with its distance from now.
pub fn can_show(ms: i64) -> (r: bool)
    ensures
        r == is_showable(ms),
{
    ms >= MAX_CLOCK_MS - i64::MAX
}

/// How far a time lies from now, in words.
pub fn format_human(ms: i64) -> (s: String)
    requires
        is_showable(ms),
    ensures
        exists|now: i64| 0 <= now <= MAX_CLOCK_MS && s@ == #[trigger] human_text(ms, now),
{
    let now: i64 = now_ms();
    format_human_at(ms, now)
}

/// A time as it is shown in a zone that is some seconds ahead of UTC, followed by its
/// distance from `now` in brackets.
pub open spec fn exact_and_human_text(ms: i64, offset_s: i32, now: i64) -> Seq<char> {
    exact_in_zone(ms, offset_s) + " ("@ + human_text(ms, now) + ")"@
}

/// Whether a text shows a time: as it reads in some zone, and as it lies from what the
/// clock can show.
pub open spec fn shows_time(s: Seq<char>, ms: i64) -> bool {
    exists|offset_s: i32, now: i64|
        0 <= now <= MAX_CLOCK_MS && is_offset(offset_s) && s == #[trigger] exact_and_human_text(
            ms,
            offset_s,
            now,
        )
}

/// A time followed by its distance from now in brackets.
pub fn format_exact_and_human(ms: i64) -> (s: String)
    requires
        is_showable(ms),
    ensures
        shows_time(s@, ms),
{
    let exact = format_exact(ms);
    let ghost offset_s = choose|offset_s: i32|
        is_offset(offset_s) && exact@ == #[trigger] exact_in_zone(ms, offset_s);
    let human = format_human(ms);
    let ghost now = choose|now: i64|
        0 <= now <= MAX_CLOCK_MS && human@ == #[trigger] human_text(ms, now);
    let mut s = exact;
    s.append(" (");
    s.append(human.as_str());
    s.append(")");
    assert(s@ == exact_and_human_text(ms, offset_s, now));
    s
}

/// A relative time lies as long before the time at which it is read as its duration says,
/// where the duration fits in 63 bits and the text is no RFC 3339 time.
pub proof fn law_ago_lies_before(input: Seq<char>, now: i64)
    requires
        rfc3339_millis(trimmed(input)) is None,
        before_ago(trimmed(input)) is Some,
        duration_ms(before_ago(trimmed(input))->Some_0) is Ok,
        duration_ms(before_ago(trimmed(input))->Some_0)->Ok_0 <= i64::MAX,
    ensures
        timestamp_at(input, now) == Ok::<int, TimeError>(
            now - duration_ms(before_ago(trimmed(input))->Some_0)->Ok_0,
        ),
{
    reveal_strlit(" ago");
    let text = trimmed(input);
    let n = text.len() as int;
    assert(text.skip(n - 4)[3] == text[n - 1]);
    assert(text[n - 1] == 'o');
    assert(number(text) is None) by {
        let digits = after_sign(text);
        assert(digits[digits.len() - 1] == 'o');
        assert(!is_digit(digits[digits.len() - 1]));
    }
}

} // verus!
