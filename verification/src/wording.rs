//! What is written of numbers, lines, tables and sizes.
use vstd::prelude::*;
use vstd::string::*;

use crate::path::{joined_path, path_message, PathError};
use crate::restore::{restore_message, RestoreError};
use crate::store::tables::{store_message, StoreError};
use crate::text::{
    byte_len,
    decimal,
    digit,
    is_space,
    joined,
    lemma_position_unique,
    lines_of,
    missing_width,
    padded_left,
    padded_right,
    repeated,
    signed_decimal,
    text_before,
    trimmed,
    trimmed_end,
    trimmed_start,
};
use crate::time::{
    all_digits,
    before_ago,
    digits_value,
    exact_and_human_text,
    exact_in_zone,
    human_text,
    is_digit,
    time_message,
    TimeError,
};
use crate::ui::{
    badge_tone,
    callout_text,
    column_width,
    diff_line,
    diff_text,
    diff_tone,
    header_line,
    in_53_bits,
    key_value_line,
    key_values_text,
    label_width,
    last_place,
    painted,
    rendered,
    rounded_quotient,
    row_line,
    size_text,
    size_unit,
    table_lines,
    table_text,
    title_text,
    tone_code,
    Align,
    BadgeTone,
    Cell,
    Tone,
};

verus! {

/// Whether a text stands somewhere in another.
pub open spec fn stands_in(part: Seq<char>, whole: Seq<char>) -> bool {
    exists|a: Seq<char>, b: Seq<char>| whole == #[trigger] (a + part + b)
}

pub proof fn lemma_stands_inside(part: Seq<char>, a: Seq<char>, b: Seq<char>, whole: Seq<char>)
    requires
        stands_in(part, whole),
    ensures
        stands_in(part, a + whole + b),
{
    let (x, y) = choose|x: Seq<char>, y: Seq<char>| whole == #[trigger] (x + part + y);
    assert(a + whole + b =~= (a + x) + part + (y + b));
}

pub proof fn lemma_stands_in_itself(part: Seq<char>)
    ensures
        stands_in(part, part),
{
    assert(part =~= Seq::<char>::empty() + part + Seq::<char>::empty());
}

pub proof fn lemma_stands_at_the_end(part: Seq<char>, a: Seq<char>)
    ensures
        stands_in(part, a + part),
{
    assert(a + part =~= a + part + Seq::<char>::empty());
}

pub proof fn lemma_stands_at_the_start(part: Seq<char>, b: Seq<char>)
    ensures
        stands_in(part, part + b),
{
    assert(part + b =~= Seq::<char>::empty() + part + b);
}

// ---------------------------------------------------------------------------
// Numbers
// ---------------------------------------------------------------------------

/// A number that is written in decimal reads back as it was, has nothing but digits and no
/// zero in front.
pub proof fn law_decimals_read_back(n: nat)
    ensures
        decimal(n).len() > 0,
        all_digits(decimal(n)),
        digits_value(decimal(n)) == n,
        n > 0 ==> decimal(n)[0] != '0',
    decreases n,
{
    if n < 10 {
        let s = decimal(n);
        assert(s.drop_last() =~= Seq::<char>::empty());
        assert(s.last() as int == 48 + n);
        assert(digits_value(s.drop_last()) == 0);
        assert('0' as int == 48 && '9' as int == 57);
        assert(is_digit(s[0]));
        assert(all_digits(s));
        assert(digits_value(s) == n);
    } else {
        law_decimals_read_back(n / 10);
        let before = decimal(n / 10);
        let s = decimal(n);
        let d = (n % 10) as int;
        assert(s.drop_last() =~= before);
        assert(digit(d) as int == 48 + d);
        assert('0' as int == 48 && '9' as int == 57);
        assert forall|i: int| 0 <= i < s.len() implies is_digit(#[trigger] s[i]) by {
            if i < before.len() {
                assert(s[i] == before[i]);
                assert(is_digit(before[i]));
            }
        }
        assert(s[0] == before[0]);
    }
}

/// Different numbers are written differently.
pub proof fn law_decimals_differ(a: nat, b: nat)
    requires
        decimal(a) == decimal(b),
    ensures
        a == b,
{
    law_decimals_read_back(a);
    law_decimals_read_back(b);
}

// ---------------------------------------------------------------------------
// Lines
// ---------------------------------------------------------------------------

/// Joining goes on piece by piece, with the separator between neighbours and nowhere else.
pub proof fn law_joining(parts: Seq<Seq<char>>, x: Seq<char>, sep: Seq<char>)
    ensures
        joined(Seq::empty(), sep) == Seq::<char>::empty(),
        joined(seq![x], sep) == x,
        parts.len() > 0 ==> joined(parts.push(x), sep) == joined(parts, sep) + sep + x,
{
    assert(parts.push(x).drop_last() =~= parts);
}

/// Every piece stands in what was joined.
pub proof fn law_joined_holds_every_piece(parts: Seq<Seq<char>>, sep: Seq<char>, i: int)
    requires
        0 <= i < parts.len(),
    ensures
        stands_in(parts[i], joined(parts, sep)),
    decreases parts.len(),
{
    if parts.len() == 1 {
        lemma_stands_in_itself(parts[0]);
    } else if i == parts.len() - 1 {
        lemma_stands_at_the_end(parts[i], joined(parts.drop_last(), sep) + sep);
    } else {
        let rest = parts.drop_last();
        assert(rest[i] == parts[i]);
        law_joined_holds_every_piece(rest, sep, i);
        lemma_stands_inside(parts[i], Seq::empty(), sep + parts.last(), joined(rest, sep));
        assert(joined(parts, sep) =~= Seq::<char>::empty() + joined(rest, sep) + (sep
            + parts.last()));
    }
}

/// A line ends at a line feed, with a carriage return before it or without; a text without
/// line feeds is one line.
pub proof fn law_lines_end_at_line_feeds(line: Seq<char>, rest: Seq<char>)
    requires
        !line.contains('\n'),
    ensures
        line.len() > 0 ==> lines_of(line) == seq![line],
        line.len() == 0 || line.last() != '\r' ==> lines_of(line + seq!['\n'] + rest) == seq![line]
            + lines_of(rest),
        lines_of(line + seq!['\r', '\n'] + rest) == seq![line] + lines_of(rest),
        lines_of(Seq::empty()).len() == 0,
{
    assert forall|j: int| 0 <= j < line.len() implies line[j] != '\n' by {
        assert(line.contains(line[j]));
    }
    lemma_position_unique(line, '\n', line.len() as int);
    let whole = line + seq!['\n'] + rest;
    assert forall|j: int| 0 <= j < line.len() implies whole[j] != '\n' by {
        assert(whole[j] == line[j]);
    }
    lemma_position_unique(whole, '\n', line.len() as int);
    assert(whole.take(line.len() as int) =~= line);
    assert(whole.skip(line.len() as int + 1) =~= rest);
    let other = line + seq!['\r', '\n'] + rest;
    let n = line.len() + 1;
    assert forall|j: int| 0 <= j < n implies other[j] != '\n' by {
        if j < line.len() {
            assert(other[j] == line[j]);
        }
    }
    lemma_position_unique(other, '\n', n as int);
    assert(other.take(n as int) =~= line.push('\r'));
    assert(line.push('\r').drop_last() =~= line);
    assert(other.skip(n as int + 1) =~= rest);
}

/// One text comes before another where it is the start of it, or where at the first place
/// at which they differ its character has the lower code.
pub proof fn law_text_order(a: Seq<char>, b: Seq<char>, n: int)
    requires
        0 <= n <= a.len(),
        n <= b.len(),
        a.take(n) == b.take(n),
    ensures
        n == a.len() && n < b.len() ==> text_before(a, b),
        n == b.len() ==> !text_before(a, b),
        n < a.len() && n < b.len() && a[n] != b[n] ==> (text_before(a, b) <==> (a[n] as u32)
            < (b[n] as u32)),
    decreases n,
{
    if n > 0 {
        let x = a.drop_first();
        let y = b.drop_first();
        assert(a[0] == a.take(n)[0] && b[0] == b.take(n)[0]);
        assert(x.take(n - 1) =~= a.take(n).drop_first());
        assert(y.take(n - 1) =~= b.take(n).drop_first());
        law_text_order(x, y, n - 1);
        if n < a.len() && n < b.len() {
            assert(x[n - 1] == a[n] && y[n - 1] == b[n]);
        }
    }
}

// ---------------------------------------------------------------------------
// Titles, callouts and colours
// ---------------------------------------------------------------------------

/// Without colour a text is written as it is; with colour it stands between two codes that
/// are the same for all texts of a tone.
pub proof fn law_colour_stands_around(a: Seq<char>, b: Seq<char>, tone: Tone)
    ensures
        painted(false, a, tone) == a,
        painted(true, a, tone).len() - a.len() == painted(true, b, tone).len() - b.len(),
        stands_in(a, painted(true, a, tone)),
        painted(true, a, tone) == "\x1b["@ + tone_code(tone) + "m"@ + a + "\x1b[0m"@,
{
    let front = "\x1b["@ + tone_code(tone) + "m"@;
    assert(painted(true, a, tone) == front + a + "\x1b[0m"@);
    assert(painted(true, b, tone) == front + b + "\x1b[0m"@);
}

pub proof fn lemma_painted_holds(color: bool, text: Seq<char>, tone: Tone)
    ensures
        stands_in(text, painted(color, text, tone)),
{
    law_colour_stands_around(text, text, tone);
    lemma_stands_in_itself(text);
}

/// A title names what it is about, and has a rule under it that is at least as long.
pub proof fn law_titles(title: Seq<char>, context: Seq<char>, color: bool)
    ensures
        context.len() > 0 ==> title_text(false, title, context) == title + ": "@ + context
            + "\n"@ + repeated(
            '-',
            if byte_len(title + ": "@ + context) < 12 {
                12
            } else {
                byte_len(title + ": "@ + context)
            },
        ),
        context.len() > 0 ==> stands_in(
            title + ": "@ + context,
            title_text(color, title, context),
        ),
{
    let head = title + ": "@ + context;
    lemma_painted_holds(color, head, Tone::Accent);
    let rule = painted(
        color,
        repeated(
            '-',
            if byte_len(head) < 12 {
                12
            } else {
                byte_len(head)
            },
        ),
        Tone::Muted,
    );
    lemma_stands_inside(
        head,
        Seq::empty(),
        "\n"@ + rule,
        painted(color, head, Tone::Accent),
    );
    if context.len() > 0 {
        assert(title_text(color, title, context) =~= Seq::<char>::empty() + painted(
            color,
            head,
            Tone::Accent,
        ) + ("\n"@ + rule));
    }
}

/// A callout is its label in brackets and then its message.
pub proof fn law_callouts(color: bool, label: Seq<char>, message: Seq<char>, tone: Tone)
    ensures
        callout_text(false, label, message, tone) == "["@ + label + "]"@ + " "@ + message,
        stands_in("["@ + label + "]"@, callout_text(color, label, message, tone)),
        stands_in(" "@ + message, callout_text(color, label, message, tone)),
{
    let badge = "["@ + label + "]"@;
    lemma_painted_holds(color, badge, tone);
    lemma_stands_inside(badge, Seq::empty(), " "@ + message, painted(color, badge, tone));
    assert(callout_text(color, label, message, tone) =~= Seq::<char>::empty() + painted(
        color,
        badge,
        tone,
    ) + (" "@ + message));
    lemma_stands_at_the_end(" "@ + message, painted(color, badge, tone));
    assert(callout_text(color, label, message, tone) =~= painted(color, badge, tone) + (" "@
        + message));
}

/// A painted diff has the lines of the diff, in order; without colour they stand as they
/// are.
pub proof fn law_diffs_keep_their_lines(color: bool, diff: Seq<char>, i: int)
    ensures
        diff_text(false, diff) == joined(lines_of(diff), "\n"@),
        0 <= i < lines_of(diff).len() ==> stands_in(lines_of(diff)[i], diff_text(color, diff)),
{
    let lines = lines_of(diff);
    let plain = lines.map_values(|line: Seq<char>| diff_line(false, line));
    assert(plain =~= lines);
    let shown = lines.map_values(|line: Seq<char>| diff_line(color, line));
    if 0 <= i < lines.len() {
        lemma_stands_in_itself(lines[i]);
        if diff_tone(lines[i]) is Some {
            lemma_painted_holds(color, lines[i], diff_tone(lines[i])->Some_0);
        }
        assert(stands_in(lines[i], shown[i]));
        law_joined_holds_every_piece(shown, "\n"@, i);
        lemma_stands_through(lines[i], shown[i], diff_text(color, diff));
    }
}

pub proof fn lemma_stands_through(part: Seq<char>, middle: Seq<char>, whole: Seq<char>)
    requires
        stands_in(part, middle),
        stands_in(middle, whole),
    ensures
        stands_in(part, whole),
{
    let (a, b) = choose|a: Seq<char>, b: Seq<char>| whole == #[trigger] (a + middle + b);
    lemma_stands_inside(part, a, b, middle);
}

// ---------------------------------------------------------------------------
// Tables
// ---------------------------------------------------------------------------

/// Labelled values stand one to a line, in order, each behind its label.
pub proof fn law_labelled_values(color: bool, rows: Seq<(Seq<char>, Seq<char>)>)
    ensures
        exists|lines: Seq<Seq<char>>|
            {
                &&& key_values_text(color, rows) == #[trigger] joined(lines, "\n"@)
                &&& lines.len() == rows.len()
                &&& forall|i: int|
                    0 <= i < rows.len() ==> labels_value(#[trigger] lines[i], rows[i].0, rows[i].1)
            },
{
    let width = label_width(rows);
    let lines = rows.map_values(
        |r: (Seq<char>, Seq<char>)| key_value_line(color, r, width),
    );
    assert(key_values_text(color, rows) == joined(lines, "\n"@));
    assert forall|i: int| 0 <= i < rows.len() implies labels_value(
        #[trigger] lines[i],
        rows[i].0,
        rows[i].1,
    ) by {
        let label = rows[i].0 + ":"@;
        let padded = padded_right(label, width + 1);
        lemma_stands_at_the_start(label, repeated(' ', missing_width(label.len(), width + 1)));
        lemma_painted_holds(color, padded, Tone::Muted);
        lemma_stands_through(label, padded, painted(color, padded, Tone::Muted));
        assert(lines[i] =~= painted(color, padded, Tone::Muted) + (" "@ + rows[i].1));
    }
}

/// Whether a line is a label with a colon and, behind a blank at its end, a value.
pub open spec fn labels_value(line: Seq<char>, label: Seq<char>, value: Seq<char>) -> bool {
    exists|front: Seq<char>|
        line == #[trigger] (front + (" "@ + value)) && stands_in(label + ":"@, front)
}

proof fn lemma_cell_is_rendered(color: bool, cell: Cell, width: nat)
    ensures
        stands_in(cell.raw, rendered(color, cell, width)),
{
    let fill = repeated(' ', missing_width(cell.raw.len(), width));
    let padded = match cell.align {
        Align::Left => padded_right(cell.raw, width),
        Align::Right => padded_left(cell.raw, width),
    };
    lemma_stands_at_the_start(cell.raw, fill);
    lemma_stands_at_the_end(cell.raw, fill);
    if cell.tone is Some {
        lemma_painted_holds(color, padded, cell.tone->Some_0);
        lemma_stands_through(cell.raw, padded, painted(color, padded, cell.tone->Some_0));
    }
}

/// Whether a line holds all the cells of a row.
pub open spec fn line_holds(line: Seq<char>, row: Seq<Cell>) -> bool {
    forall|c: int| 0 <= c < row.len() ==> stands_in((#[trigger] row[c]).raw, line)
}

/// A table has a line of headers, a rule, and then one line for each row, in order, that
/// holds all its cells.
pub proof fn law_tables_show_every_cell(
    color: bool,
    headers: Seq<Seq<char>>,
    rows: Seq<Seq<Cell>>,
)
    ensures
        exists|lines: Seq<Seq<char>>|
            {
                &&& table_text(color, headers, rows) == #[trigger] joined(lines, "\n"@)
                &&& lines.len() == rows.len() + 2
                &&& forall|c: int|
                    0 <= c < headers.len() ==> stands_in(#[trigger] headers[c], lines[0])
                &&& forall|r: int|
                    0 <= r < rows.len() ==> line_holds(lines[r + 2], #[trigger] rows[r])
            },
{
    let lines = table_lines(color, headers, rows);
    assert(table_text(color, headers, rows) == joined(lines, "\n"@));
    let heads = Seq::new(
        headers.len(),
        |i: int| padded_right(headers[i], column_width(headers, rows, i)),
    );
    assert forall|c: int| 0 <= c < headers.len() implies stands_in(
        #[trigger] headers[c],
        lines[0],
    ) by {
        law_joined_holds_every_piece(heads, " | "@, c);
        lemma_stands_at_the_start(
            headers[c],
            repeated(
                ' ',
                missing_width(headers[c].len(), column_width(headers, rows, c)),
            ),
        );
        lemma_stands_through(headers[c], heads[c], header_line(headers, rows));
        lemma_painted_holds(color, header_line(headers, rows), Tone::Info);
        lemma_stands_through(headers[c], header_line(headers, rows), lines[0]);
    }
    assert forall|r: int| 0 <= r < rows.len() implies line_holds(
        lines[r + 2],
        #[trigger] rows[r],
    ) by {
        let row = rows[r];
        assert(lines[r + 2] == row_line(color, headers, rows, row));
        let cells = Seq::new(
            row.len(),
            |i: int| rendered(color, row[i], column_width(headers, rows, i)),
        );
        assert forall|c: int| 0 <= c < row.len() implies stands_in(
            (#[trigger] row[c]).raw,
            lines[r + 2],
        ) by {
            law_joined_holds_every_piece(cells, " | "@, c);
            lemma_cell_is_rendered(color, row[c], column_width(headers, rows, c));
            lemma_stands_through(row[c].raw, cells[c], lines[r + 2]);
        }
    }
}

// ---------------------------------------------------------------------------
// Sizes
// ---------------------------------------------------------------------------

/// Whether a number of units is the nearest to a number of bytes.
pub open spec fn is_nearest(q: nat, n: nat, unit: nat) -> bool {
    2 * n <= 2 * q * unit + unit && 2 * q * unit <= 2 * n + unit
}

proof fn lemma_rounded(n: nat, d: nat)
    requires
        d > 0,
    ensures
        is_nearest(rounded_quotient(n, d), n, d),
{
    let q = n / d;
    let r = n % d;
    vstd::arithmetic::div_mod::lemma_fundamental_div_mod(n as int, d as int);
    assert(n == d * q + r);
    assert(d * q == q * d) by (nonlinear_arith);
    assert(2 * q * d == 2 * (q * d)) by (nonlinear_arith);
    assert(2 * (q + 1) * d == 2 * (q * d) + 2 * d) by (nonlinear_arith);
}

/// A size below a kilobyte is shown in bytes. A larger one is shown in the largest unit that
/// it fills: in whole units from ten on, and in tenths below that, in either case the nearest
/// number of them.
pub proof fn law_sizes(n: nat)
    requires
        n < 9_007_199_254_740_992,
    ensures
        n < 1_024 ==> size_text(n) == decimal(n) + " "@ + "B"@,
        1_024 <= n < 1_048_576 ==> shows_size(size_text(n), n, 1_024, "KB"@),
        1_048_576 <= n < 1_073_741_824 ==> shows_size(size_text(n), n, 1_048_576, "MB"@),
        1_073_741_824 <= n < 1_099_511_627_776 ==> shows_size(
            size_text(n),
            n,
            1_073_741_824,
            "GB"@,
        ),
        1_099_511_627_776 <= n ==> shows_size(size_text(n), n, 1_099_511_627_776, "TB"@),
{
    assert(last_place(n, 1) == 1);
    assert(n / 1 == n && n % 1 == 0);
    assert(in_53_bits(n) == n);
    let unit = size_unit(n).1;
    lemma_rounded(n, unit);
    lemma_rounded(10 * n, unit);
    if n >= 1_024 {
        let q = rounded_quotient(n, unit);
        let tenths = rounded_quotient(10 * n, unit);
        let name = size_unit(n).0;
        if n >= 10 * unit {
            assert(is_nearest(q, n, unit) && size_text(n) == decimal(q) + " "@ + name);
        } else {
            assert(is_nearest(tenths, 10 * n, unit) && size_text(n) == decimal(tenths / 10) + "."@
                + decimal(tenths % 10) + " "@ + name);
        }
    }
}

/// Whether a text shows a size in a unit.
pub open spec fn shows_size(s: Seq<char>, n: nat, unit: nat, name: Seq<char>) -> bool {
    if n >= 10 * unit {
        exists|q: nat| #[trigger] is_nearest(q, n, unit) && s == decimal(q) + " "@ + name
    } else {
        exists|tenths: nat| #[trigger]
            is_nearest(tenths, 10 * n, unit) && s == decimal(tenths / 10) + "."@ + decimal(
                tenths % 10,
            ) + " "@ + name
    }
}

// ---------------------------------------------------------------------------
// Blanks around a text
// ---------------------------------------------------------------------------

/// A text that is filled up stands whole at its side, has the width that was asked for, or
/// its own where that is greater, and has nothing but blanks besides.
pub proof fn law_padding(s: Seq<char>, width: nat)
    ensures
        padded_right(s, width).len() == (if s.len() < width {
            width
        } else {
            s.len()
        }),
        padded_left(s, width).len() == padded_right(s, width).len(),
        padded_right(s, width).take(s.len() as int) == s,
        padded_left(s, width).skip(padded_left(s, width).len() - s.len()) == s,
        forall|i: int|
            s.len() <= i < padded_right(s, width).len() ==> #[trigger] padded_right(s, width)[i]
                == ' ',
        forall|i: int|
            0 <= i < padded_left(s, width).len() - s.len() ==> #[trigger] padded_left(s, width)[i]
                == ' ',
{
    assert(padded_right(s, width).take(s.len() as int) =~= s);
    assert(padded_left(s, width).skip(padded_left(s, width).len() - s.len()) =~= s);
}

/// Whether a text is made of white space alone.
pub open spec fn is_white(s: Seq<char>) -> bool {
    forall|i: int| 0 <= i < s.len() ==> is_space(#[trigger] s[i])
}

proof fn lemma_front(s: Seq<char>) -> (n: int)
    ensures
        0 <= n <= s.len(),
        is_white(s.take(n)),
        trimmed_start(s) == s.skip(n),
        n < s.len() ==> !is_space(s[n]),
    decreases s.len(),
{
    if s.len() > 0 && is_space(s[0]) {
        let n = lemma_front(s.drop_first());
        assert(s.skip(n + 1) =~= s.drop_first().skip(n));
        assert forall|i: int| 0 <= i < n + 1 implies is_space(#[trigger] s.take(n + 1)[i]) by {
            if i > 0 {
                assert(s.drop_first().take(n)[i - 1] == s[i]);
            }
        }
        if n + 1 < s.len() {
            assert(s.drop_first()[n] == s[n + 1]);
        }
        n + 1
    } else {
        assert(s.skip(0) =~= s);
        0
    }
}

proof fn lemma_back(s: Seq<char>) -> (n: int)
    ensures
        0 <= n <= s.len(),
        is_white(s.skip(n)),
        trimmed_end(s) == s.take(n),
        n > 0 ==> !is_space(s[n - 1]),
    decreases s.len(),
{
    if s.len() > 0 && is_space(s.last()) {
        let n = lemma_back(s.drop_last());
        assert(s.take(n) =~= s.drop_last().take(n));
        assert forall|i: int| 0 <= i < s.skip(n).len() implies is_space(#[trigger] s.skip(n)[i]) by {
            if n + i < s.len() - 1 {
                assert(s.drop_last().skip(n)[i] == s[n + i]);
            }
        }
        n
    } else {
        assert(s.take(s.len() as int) =~= s);
        s.len() as int
    }
}

/// Trimming takes the white space away from both ends of a text, and nothing else.
pub proof fn law_trimming(s: Seq<char>)
    ensures
        exists|front: Seq<char>, back: Seq<char>|
            s == #[trigger] (front + trimmed(s) + back) && is_white(front) && is_white(back),
        trimmed(s).len() > 0 ==> !is_space(trimmed(s)[0]) && !is_space(trimmed(s).last()),
{
    let n = lemma_front(s);
    let rest = s.skip(n);
    let m = lemma_back(rest);
    let front = s.take(n);
    let back = rest.skip(m);
    assert(trimmed(s) == rest.take(m));
    assert(s =~= front + trimmed(s) + back);
    if trimmed(s).len() > 0 {
        assert(rest.take(m)[0] == s[n]);
        assert(rest.take(m).last() == rest[m - 1]);
    }
}

// ---------------------------------------------------------------------------
// Signs, tones and messages
// ---------------------------------------------------------------------------

/// A number below zero is written with a minus sign, and different numbers are written
/// differently.
pub proof fn law_signed_decimals(a: int, b: int, n: nat)
    ensures
        signed_decimal(n as int) == decimal(n),
        n > 0 ==> signed_decimal(-(n as int)) == seq!['-'] + decimal(n),
        signed_decimal(a) == signed_decimal(b) ==> a == b,
{
    let size_a = if a < 0 {
        (-a) as nat
    } else {
        a as nat
    };
    let size_b = if b < 0 {
        (-b) as nat
    } else {
        b as nat
    };
    law_decimals_read_back(size_a);
    law_decimals_read_back(size_b);
    assert(is_digit(decimal(size_a)[0]) && is_digit(decimal(size_b)[0]));
    assert('-' as u32 == 45 && '0' as u32 == 48);
    if signed_decimal(a) == signed_decimal(b) {
        assert((a < 0) == (b < 0)) by {
            assert(signed_decimal(a)[0] == signed_decimal(b)[0]);
        }
        if a < 0 {
            assert(signed_decimal(a).skip(1) =~= decimal(size_a));
            assert(signed_decimal(b).skip(1) =~= decimal(size_b));
        }
    }
}

/// What is written in another tone is written in another colour.
pub proof fn law_tones_differ(a: Tone, b: Tone)
    ensures
        tone_code(a) == tone_code(b) ==> a == b,
{
    reveal_strlit("1;36");
    reveal_strlit("90");
    reveal_strlit("1;32");
    reveal_strlit("1;33");
    reveal_strlit("1;31");
    reveal_strlit("1;34");
    if tone_code(a) == tone_code(b) {
        assert(tone_code(a).len() == tone_code(b).len());
        if tone_code(a).len() == 4 {
            assert(tone_code(a)[3] == tone_code(b)[3]);
        }
    }
}

/// A badge has the tone of its name.
pub proof fn law_tones_of_badges()
    ensures
        badge_tone(BadgeTone::Accent) is Accent,
        badge_tone(BadgeTone::Success) is Success,
        badge_tone(BadgeTone::Warning) is Warning,
        badge_tone(BadgeTone::Danger) is Danger,
        badge_tone(BadgeTone::Info) is Info,
{
}

/// What is said of a path names the path, and says something else for each reason. That of a
/// path outside the project names the project too.
pub proof fn law_messages_name_their_path(
    a: PathError,
    b: PathError,
    root: Seq<char>,
    path: Seq<char>,
)
    ensures
        stands_in(path, path_message(a, root, path)),
        a is Outside ==> stands_in(root, path_message(a, root, path)),
        path_message(a, root, path) == path_message(b, root, path) ==> a == b,
{
    reveal_strlit("path ");
    reveal_strlit(" is outside the project root ");
    reveal_strlit(" escapes the project root");
    reveal_strlit(" does not refer to a file inside the project");
    let start = "path "@;
    let said = path_message(a, root, path);
    let tail = said.skip((start + path).len() as int);
    assert(said =~= start + path + tail);
    assert(stands_in(path, said));
    if a is Outside {
        let before = "path "@ + path + " is outside the project root "@;
        assert(said =~= before + root + Seq::<char>::empty());
    }
    if said == path_message(b, root, path) {
        let k = 6 + path.len() as int;
        assert(said[k] == path_message(b, root, path)[k]);
    }
}

/// A time is shown exactly, with how far it lies from now behind it in brackets.
pub proof fn law_times_are_shown_twice(ms: i64, offset_s: i32, now: i64)
    ensures
        stands_in(exact_in_zone(ms, offset_s), exact_and_human_text(ms, offset_s, now)),
        stands_in("("@ + human_text(ms, now) + ")"@, exact_and_human_text(ms, offset_s, now)),
{
    reveal_strlit(" (");
    reveal_strlit("(");
    reveal_strlit(")");
    let s = exact_and_human_text(ms, offset_s, now);
    let exact = exact_in_zone(ms, offset_s);
    let human = "("@ + human_text(ms, now) + ")"@;
    assert(s =~= Seq::<char>::empty() + exact + (seq![' '] + human));
    assert(s =~= (exact + seq![' ']) + human + Seq::<char>::empty());
}

// ---------------------------------------------------------------------------
// Columns
// ---------------------------------------------------------------------------

/// A column is as wide as the widest of its header and its cells, and no wider.
pub proof fn law_columns_are_as_wide_as_needed(
    headers: Seq<Seq<char>>,
    rows: Seq<Seq<Cell>>,
    c: int,
)
    ensures
        byte_len(headers[c]) <= column_width(headers, rows, c),
        forall|r: int|
            0 <= r < rows.len() && c < rows[r].len() ==> byte_len((#[trigger] rows[r])[c].raw)
                <= column_width(headers, rows, c),
        column_width(headers, rows, c) == byte_len(headers[c]) || exists|r: int|
            0 <= r < rows.len() && c < rows[r].len() && byte_len((#[trigger] rows[r])[c].raw)
                == column_width(headers, rows, c),
    decreases rows.len(),
{
    if rows.len() > 0 {
        let rest = rows.drop_last();
        law_columns_are_as_wide_as_needed(headers, rest, c);
        let width = column_width(headers, rows, c);
        let before = column_width(headers, rest, c);
        assert forall|r: int| 0 <= r < rows.len() && c < rows[r].len() implies byte_len(
            (#[trigger] rows[r])[c].raw,
        ) <= width by {
            if r < rest.len() {
                assert(rest[r] == rows[r]);
            }
        }
        if width == before {
            if before != byte_len(headers[c]) {
                let r = choose|r: int|
                    0 <= r < rest.len() && c < rest[r].len() && byte_len((#[trigger] rest[r])[c].raw)
                        == before;
                assert(rows[r] == rest[r]);
            }
        } else {
            assert(byte_len(rows[rows.len() - 1][c].raw) == width);
        }
    }
}

/// Labels are given the width of the widest of them.
pub proof fn law_labels_are_as_wide_as_needed(rows: Seq<(Seq<char>, Seq<char>)>)
    ensures
        forall|i: int|
            0 <= i < rows.len() ==> byte_len((#[trigger] rows[i]).0) <= label_width(rows),
        rows.len() > 0 && label_width(rows) > 0 ==> exists|i: int|
            0 <= i < rows.len() && byte_len((#[trigger] rows[i]).0) == label_width(rows),
    decreases rows.len(),
{
    if rows.len() > 0 {
        let rest = rows.drop_last();
        law_labels_are_as_wide_as_needed(rest);
        assert forall|i: int| 0 <= i < rows.len() implies byte_len((#[trigger] rows[i]).0)
            <= label_width(rows) by {
            if i < rest.len() {
                assert(rest[i] == rows[i]);
            }
        }
        if label_width(rows) == label_width(rest) {
            if rest.len() > 0 && label_width(rest) > 0 {
                let i = choose|i: int|
                    0 <= i < rest.len() && byte_len((#[trigger] rest[i]).0) == label_width(rest);
                assert(rows[i] == rest[i]);
            }
        } else {
            assert(byte_len(rows[rows.len() - 1].0) == label_width(rows));
        }
    }
}

/// Without colours a table is made of the headers, a line of dashes and the rows, each filled
/// up to the width of its column and kept apart by a bar.
pub proof fn law_tables_are_set_in_columns(headers: Seq<Seq<char>>, rows: Seq<Seq<Cell>>)
    ensures
        table_text(false, headers, rows) == joined(
            seq![
                joined(
                    Seq::new(
                        headers.len(),
                        |c: int| padded_right(headers[c], column_width(headers, rows, c)),
                    ),
                    " | "@,
                ),
                joined(
                    Seq::new(
                        headers.len(),
                        |c: int| repeated('-', column_width(headers, rows, c)),
                    ),
                    "-+-"@,
                ),
            ] + rows.map_values(
                |row: Seq<Cell>|
                    joined(
                        Seq::new(
                            row.len(),
                            |c: int|
                                if row[c].align == Align::Left {
                                    padded_right(row[c].raw, column_width(headers, rows, c))
                                } else {
                                    padded_left(row[c].raw, column_width(headers, rows, c))
                                },
                        ),
                        " | "@,
                    ),
            ),
            "\n"@,
        ),
{
    let set_row = |row: Seq<Cell>|
        joined(
            Seq::new(
                row.len(),
                |c: int|
                    if row[c].align == Align::Left {
                        padded_right(row[c].raw, column_width(headers, rows, c))
                    } else {
                        padded_left(row[c].raw, column_width(headers, rows, c))
                    },
            ),
            " | "@,
        );
    let lines = table_lines(false, headers, rows);
    let set_lines = rows.map_values(set_row);
    assert forall|r: int| 0 <= r < rows.len() implies #[trigger] set_lines[r] == lines[r + 2] by {
        let row = rows[r];
        assert(Seq::new(
            row.len(),
            |c: int| rendered(false, row[c], column_width(headers, rows, c)),
        ) =~= Seq::new(
            row.len(),
            |c: int|
                if row[c].align == Align::Left {
                    padded_right(row[c].raw, column_width(headers, rows, c))
                } else {
                    padded_left(row[c].raw, column_width(headers, rows, c))
                },
        ));
    }
    assert(lines =~= seq![lines[0], lines[1]] + set_lines);
}

/// Without colours a labelled value is its label with a colon, filled up to the width of the
/// labels, a blank, and the value.
pub proof fn law_values_stand_behind_their_labels(rows: Seq<(Seq<char>, Seq<char>)>)
    ensures
        key_values_text(false, rows) == joined(
            rows.map_values(
                |row: (Seq<char>, Seq<char>)|
                    padded_right(row.0 + ":"@, label_width(rows) + 1) + " "@ + row.1,
            ),
            "\n"@,
        ),
{
    let width = label_width(rows);
    assert(rows.map_values(|r: (Seq<char>, Seq<char>)| key_value_line(false, r, width))
        =~= rows.map_values(
        |row: (Seq<char>, Seq<char>)| padded_right(row.0 + ":"@, label_width(rows) + 1) + " "@
            + row.1,
    ));
}

// ---------------------------------------------------------------------------
// Diffs and further messages
// ---------------------------------------------------------------------------

/// In a diff the heads of hunks, the names of the files, what was added and what was taken
/// away each have a tone of their own, and all other lines have none.
pub proof fn law_tones_of_diffs(rest: Seq<char>, c: char)
    requires
        c != '@' && c != '+' && c != '-',
    ensures
        diff_tone("@@"@ + rest) == Some(Tone::Info),
        diff_tone("+++"@ + rest) == Some(Tone::Accent),
        diff_tone("---"@ + rest) == Some(Tone::Accent),
        rest.len() == 0 || rest[0] != '+' ==> diff_tone("+"@ + rest) == Some(Tone::Success),
        rest.len() == 0 || rest[0] != '-' ==> diff_tone("-"@ + rest) == Some(Tone::Danger),
        diff_tone(seq![c] + rest) is None,
        diff_tone(Seq::empty()) is None,
{
    reveal_strlit("@@");
    reveal_strlit("+++");
    reveal_strlit("---");
    reveal_strlit("+");
    reveal_strlit("-");
    assert(("@@"@ + rest).take(2) =~= "@@"@);
    let added = "+++"@ + rest;
    let taken = "---"@ + rest;
    assert(added.take(3) =~= "+++"@ && taken.take(3) =~= "---"@);
    assert(added.take(2)[0] == '+' && taken.take(2)[0] == '-');
    let plus = "+"@ + rest;
    let minus = "-"@ + rest;
    assert(plus.take(1) =~= "+"@ && minus.take(1) =~= "-"@);
    if plus.len() >= 2 {
        assert(plus.take(2)[0] == '+' && minus.take(2)[0] == '-');
    }
    if plus.len() >= 3 {
        assert(plus.take(3)[1] == rest[0] && minus.take(3)[1] == rest[0]);
        assert(plus.take(3)[0] == '+' && minus.take(3)[0] == '-');
        assert("+++"@[0] == '+' && "+++"@[1] == '+' && "---"@[0] == '-' && "---"@[1] == '-');
    }
    assert("@@"@[0] == '@');
    assert(minus.take(1)[0] == '-' && "+"@[0] == '+');
    let other = seq![c] + rest;
    assert(other.take(1)[0] == c);
    assert("-"@[0] == '-');
    if other.len() >= 2 {
        assert(other.take(2)[0] == c);
    }
    if other.len() >= 3 {
        assert(other.take(3)[0] == c);
    }
}

/// What is said of a row of the store names its number.
pub proof fn law_messages_name_their_row(id: i64)
    ensures
        ({
            let n = signed_decimal(id as int);
            &&& stands_in(n, store_message(StoreError::UnknownContext(id)))
            &&& stands_in(n, store_message(StoreError::MissingRevision(id)))
            &&& stands_in(n, store_message(StoreError::DeletedRevision(id)))
            &&& stands_in(n, store_message(StoreError::MissingBase(id)))
            &&& stands_in(n, store_message(StoreError::MissingBaseRevision(id)))
            &&& stands_in(n, store_message(StoreError::BaseLoop(id)))
            &&& stands_in(n, store_message(StoreError::MissingFullPayload(id)))
            &&& stands_in(n, store_message(StoreError::MissingPatchPayload(id)))
            &&& stands_in(n, store_message(StoreError::InvalidUtf8(id)))
            &&& stands_in(n, store_message(StoreError::NoContent(id)))
            &&& stands_in(n, store_message(StoreError::UnsupportedVersion(id)))
        }),
{
    let n = signed_decimal(id as int);
    lemma_stands_at_the_end(n, "unknown context "@);
    lemma_stands_at_the_end(n, "missing revision "@);
    lemma_stands_at_the_end(n, "cannot reconstruct deleted revision "@);
    lemma_stands_at_the_end(n, "missing base revision "@);
    lemma_stands_at_the_end(n, "unsupported timeline schema version "@);
    let chain = "revision chain for "@;
    let row = "revision "@;
    assert(stands_in(n, chain + n + " is missing a base"@));
    assert(stands_in(n, chain + n + " leads back to itself"@));
    assert(stands_in(n, row + n + " is missing a full payload"@));
    assert(stands_in(n, row + n + " is missing a patch payload"@));
    assert(stands_in(n, row + n + " contains invalid UTF-8"@));
    assert(stands_in(n, row + n + " has no reconstructable content"@));
}

/// What is said of a time that was not understood shows the text.
pub proof fn law_messages_show_the_time(input: Seq<char>, c: char)
    ensures
        stands_in(trimmed(input), time_message(TimeError::Unsupported, input)),
        before_ago(trimmed(input)) matches Some(duration) ==> {
            &&& stands_in(duration, time_message(TimeError::InvalidDuration, input))
            &&& stands_in(duration, time_message(TimeError::MissingUnit, input))
            &&& stands_in(duration, time_message(TimeError::UnknownUnit(c), input))
            &&& stands_in(seq![c], time_message(TimeError::UnknownUnit(c), input))
        },
{
    let text = trimmed(input);
    let start = "unsupported timestamp `"@;
    let rest = "`. Use RFC3339, "@ + "unix seconds/millis, `now`, or values like `2h ago`."@;
    assert(time_message(TimeError::Unsupported, input) =~= start + text + rest);
    if before_ago(text) is Some {
        let unit = "unsupported duration unit `"@;
        let said = time_message(TimeError::UnknownUnit(c), input);
        let duration = before_ago(text)->Some_0;
        assert(said =~= unit + seq![c] + ("` in `"@ + duration + "`"@));
        assert(said =~= (unit.push(c) + "` in `"@) + duration + "`"@);
    }
}

/// Blanks, tabs, line ends and the wider blanks of Unicode are white space; no letter, digit
/// or sign is.
pub proof fn law_white_space(c: char)
    ensures
        c == ' ' || c == '\t' || c == '\n' || c == '\r' || c == '\u{b}' || c == '\u{c}' ==> is_space(
            c,
        ),
        c == '\u{85}' || c == '\u{a0}' || c == '\u{1680}' || c == '\u{2028}' || c == '\u{2029}' || c
            == '\u{202f}' || c == '\u{205f}' || c == '\u{3000}' ==> is_space(c),
        '\u{2000}' as u32 <= c as u32 <= '\u{200a}' as u32 ==> is_space(c),
        is_space(c) && (c as u32) < 128 ==> c as u32 == 32 || 9 <= c as u32 <= 13,
        is_space(c) && (c as u32) >= 128 ==> {
            ||| c as u32 == 0x85 || c as u32 == 0xa0 || c as u32 == 0x1680
            ||| 0x2000 <= c as u32 <= 0x200a
            ||| c as u32 == 0x2028 || c as u32 == 0x2029 || c as u32 == 0x202f
            ||| c as u32 == 0x205f || c as u32 == 0x3000
        },
{
}

/// What is said of a restore that failed is what is said of the path or of the store; that of
/// a file whose whole path fails names the whole path.
pub proof fn law_messages_of_restores(
    root: Seq<char>,
    file: Seq<char>,
    p: PathError,
    e: StoreError,
)
    ensures
        restore_message(RestoreError::Input(p), root, file) == path_message(p, root, file),
        stands_in(joined_path(root, file), restore_message(RestoreError::Path(p), root, file)),
        restore_message(RestoreError::Store(e), root, file) == store_message(e),
{
    law_messages_name_their_path(p, p, root, joined_path(root, file));
}

} // verus!
