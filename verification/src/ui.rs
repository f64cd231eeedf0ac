//! What the user sees: titles, tables, callouts and sizes, with colour or without.
use vstd::prelude::*;
use vstd::string::*;

use crate::store::rows::{EventType, StorageKind};
use crate::text::{
    begins_with,
    byte_len,
    concat,
    concat3,
    decimal,
    decimal_text,
    join,
    joined,
    lines,
    lines_of,
    opt_text,
    opt_text_is,
    pad_left,
    pad_right,
    padded_left,
    padded_right,
    repeated,
    repeated_text,
    size_of_text,
    text_begins_with,
    texts,
};

verus! {

/// What a piece of text means to the user.
#[derive(Debug, Clone, Copy, PartialEq, Eq, Structural)]
pub enum Tone {
    Accent,
    Muted,
    Success,
    Warning,
    Danger,
    Info,
}

/// On which side the text of a cell stands.
#[derive(Debug, Clone, Copy, PartialEq, Eq, Structural)]
pub enum Align {
    Left,
    Right,
}

/// What a badge means to the user.
#[derive(Debug, Clone, Copy, PartialEq, Eq, Structural)]
pub enum BadgeTone {
    Accent,
    Success,
    Warning,
    Danger,
    Info,
}

/// The tone of a badge.
pub open spec fn badge_tone(tone: BadgeTone) -> Tone {
    match tone {
        BadgeTone::Accent => Tone::Accent,
        BadgeTone::Success => Tone::Success,
        BadgeTone::Warning => Tone::Warning,
        BadgeTone::Danger => Tone::Danger,
        BadgeTone::Info => Tone::Info,
    }
}

/// The terminal code of a tone.
pub open spec fn tone_code(tone: Tone) -> Seq<char> {
    match tone {
        Tone::Accent => "1;36"@,
        Tone::Muted => "90"@,
        Tone::Success => "1;32"@,
        Tone::Warning => "1;33"@,
        Tone::Danger => "1;31"@,
        Tone::Info => "1;34"@,
    }
}

/// A text in a tone; as it is where there is no colour.
pub open spec fn painted(color: bool, text: Seq<char>, tone: Tone) -> Seq<char> {
    if color {
        "\x1b["@ + tone_code(tone) + "m"@ + text + "\x1b[0m"@
    } else {
        text
    }
}

/// One cell of a table.
#[derive(Debug)]
pub struct TableCell {
    raw: String,
    align: Align,
    tone: Option<Tone>,
}

/// The view of a [`TableCell`].
pub struct Cell {
    pub raw: Seq<char>,
    pub align: Align,
    pub tone: Option<Tone>,
}

impl View for TableCell {
    type V = Cell;

    closed spec fn view(&self) -> Cell {
        Cell { raw: self.raw@, align: self.align, tone: self.tone }
    }
}

/// A cell as it stands in a column of the given width.
pub open spec fn rendered(color: bool, cell: Cell, width: nat) -> Seq<char> {
    let padded = match cell.align {
        Align::Left => padded_right(cell.raw, width),
        Align::Right => padded_left(cell.raw, width),
    };
    match cell.tone {
        Some(tone) => painted(color, padded, tone),
        None => padded,
    }
}

impl TableCell {
    /// A cell with its text on the left.
    pub fn plain(value: &str) -> (c: Self)
        ensures
            c@ == (Cell { raw: value@, align: Align::Left, tone: None }),
    {
        TableCell { raw: value.to_owned(), align: Align::Left, tone: None }
    }

    /// A cell with its text on the right.
    pub fn right(value: &str) -> (c: Self)
        ensures
            c@ == (Cell { raw: value@, align: Align::Right, tone: None }),
    {
        TableCell { raw: value.to_owned(), align: Align::Right, tone: None }
    }

    /// The cell in the tone of success.
    pub fn success(self) -> (c: Self)
        ensures
            c@ == (Cell { tone: Some(Tone::Success), ..self@ }),
    {
        TableCell { raw: self.raw, align: self.align, tone: Some(Tone::Success) }
    }

    /// The cell in the tone of a warning.
    pub fn warning(self) -> (c: Self)
        ensures
            c@ == (Cell { tone: Some(Tone::Warning), ..self@ }),
    {
        TableCell { raw: self.raw, align: self.align, tone: Some(Tone::Warning) }
    }

    /// The cell in the tone of danger.
    pub fn danger(self) -> (c: Self)
        ensures
            c@ == (Cell { tone: Some(Tone::Danger), ..self@ }),
    {
        TableCell { raw: self.raw, align: self.align, tone: Some(Tone::Danger) }
    }

    /// The cell in the tone of information.
    pub fn info(self) -> (c: Self)
        ensures
            c@ == (Cell { tone: Some(Tone::Info), ..self@ }),
    {
        TableCell { raw: self.raw, align: self.align, tone: Some(Tone::Info) }
    }

    /// The cell as it stands in a column of the given width.
    pub fn render(&self, ui: &Ui, width: usize) -> (s: String)
        ensures
            s@ == rendered(ui.colored(), self@, width as nat),
    {
        let padded = match self.align {
            Align::Left => pad_right(self.raw.as_str(), width),
            Align::Right => pad_left(self.raw.as_str(), width),
        };
        match self.tone {
            Some(tone) => ui.paint(padded.as_str(), tone),
            None => padded,
        }
    }

    /// The width that the cell asks for.
    pub fn width(&self) -> (n: usize)
        ensures
            n == byte_len(self@.raw),
    {
        size_of_text(self.raw.as_str())
    }
}

/// How the user is spoken to: in colour or without.
#[derive(Debug)]
pub struct Ui {
    color: bool,
}

/// The heading of a title.
pub open spec fn heading(title: Seq<char>, context: Seq<char>) -> Seq<char> {
    if context.len() == 0 {
        title
    } else {
        title + ": "@ + context
    }
}

/// A title with a rule under it.
pub open spec fn title_text(color: bool, title: Seq<char>, context: Seq<char>) -> Seq<char> {
    let head = heading(title, context);
    let width = if byte_len(head) < 12 {
        12
    } else {
        byte_len(head)
    };
    painted(color, head, Tone::Accent) + "\n"@ + painted(color, repeated('-', width), Tone::Muted)
}

/// A label in brackets, then a message.
pub open spec fn callout_text(
    color: bool,
    label: Seq<char>,
    message: Seq<char>,
    tone: Tone,
) -> Seq<char> {
    painted(color, "["@ + label + "]"@, tone) + " "@ + message
}

/// How an event is shown in a table.
pub open spec fn event_cell_view(event: EventType) -> Cell {
    match event {
        EventType::Create => Cell {
            raw: "CREATE"@,
            align: Align::Left,
            tone: Some(Tone::Success),
        },
        EventType::Modify => Cell { raw: "MODIFY"@, align: Align::Left, tone: Some(Tone::Info) },
        EventType::Delete => Cell { raw: "DELETE"@, align: Align::Left, tone: Some(Tone::Danger) },
    }
}

/// How a storage kind is shown in a table.
pub open spec fn storage_cell_view(kind: StorageKind) -> Cell {
    match kind {
        StorageKind::Full => Cell { raw: "FULL"@, align: Align::Left, tone: Some(Tone::Success) },
        StorageKind::Patch => Cell { raw: "PATCH"@, align: Align::Left, tone: Some(Tone::Warning) },
        StorageKind::Absent => Cell { raw: "NONE"@, align: Align::Left, tone: Some(Tone::Danger) },
    }
}

/// The tone of a line of a diff.
pub open spec fn diff_tone(line: Seq<char>) -> Option<Tone> {
    if begins_with(line, "@@"@) {
        Some(Tone::Info)
    } else if begins_with(line, "+++"@) || begins_with(line, "---"@) {
        Some(Tone::Accent)
    } else if begins_with(line, "+"@) {
        Some(Tone::Success)
    } else if begins_with(line, "-"@) {
        Some(Tone::Danger)
    } else {
        None
    }
}

/// A line of a diff in its tone.
pub open spec fn diff_line(color: bool, line: Seq<char>) -> Seq<char> {
    match diff_tone(line) {
        Some(tone) => painted(color, line, tone),
        None => line,
    }
}

/// A diff, each line in its tone.
pub open spec fn diff_text(color: bool, diff: Seq<char>) -> Seq<char> {
    joined(lines_of(diff).map_values(|line: Seq<char>| diff_line(color, line)), "\n"@)
}

impl Ui {
    /// Whether there is colour.
    pub closed spec fn colored(&self) -> bool {
        self.color
    }

    /// A user interface on a terminal or elsewhere. There is colour on a terminal, unless
    /// `NO_COLOR` is set or `TERM` says that the terminal is dumb.
    pub fn new(is_terminal: bool, no_color: bool, term: &Option<String>) -> (ui: Self)
        ensures
            ui.colored() == (is_terminal && !no_color && opt_text(*term) != Some("dumb"@)),
    {
        Ui { color: is_terminal && !no_color && !opt_text_is(term, "dumb") }
    }

    /// A text in a tone.
    pub fn paint(&self, text: &str, tone: Tone) -> (s: String)
        ensures
            s@ == painted(self.colored(), text@, tone),
    {
        if !self.color {
            return text.to_owned();
        }
        let mut s = "\x1b[".to_owned();
        match tone {
            Tone::Accent => s.append("1;36"),
            Tone::Muted => s.append("90"),
            Tone::Success => s.append("1;32"),
            Tone::Warning => s.append("1;33"),
            Tone::Danger => s.append("1;31"),
            Tone::Info => s.append("1;34"),
        }
        s.append("m");
        s.append(text);
        s.append("\x1b[0m");
        s
    }

    /// A title with a rule under it.
    pub fn title(&self, title: &str, context: &str) -> (s: String)
        ensures
            s@ == title_text(self.colored(), title@, context@),
    {
        let head = if context.unicode_len() == 0 {
            title.to_owned()
        } else {
            concat3(title, ": ", context)
        };
        let size: usize = size_of_text(head.as_str());
        let width: usize = if size < 12 {
            12
        } else {
            size
        };
        let rule = repeated_text('-', width);
        let mut s = self.paint(head.as_str(), Tone::Accent);
        s.append("\n");
        s.append(self.paint(rule.as_str(), Tone::Muted).as_str());
        s
    }

    /// A label in brackets, then a message.
    pub fn callout(&self, label: &str, message: &str, tone: Tone) -> (s: String)
        ensures
            s@ == callout_text(self.colored(), label@, message@, tone),
    {
        let mut s = self.paint(concat3("[", label, "]").as_str(), tone);
        s.append(" ");
        s.append(message);
        s
    }

    /// A message of success.
    pub fn success(&self, message: &str) -> (s: String)
        ensures
            s@ == callout_text(self.colored(), "OK"@, message@, Tone::Success),
    {
        self.callout("OK", message, Tone::Success)
    }

    /// A warning.
    pub fn warning(&self, message: &str) -> (s: String)
        ensures
            s@ == callout_text(self.colored(), "WARN"@, message@, Tone::Warning),
    {
        self.callout("WARN", message, Tone::Warning)
    }

    /// A message of failure.
    pub fn error(&self, message: &str) -> (s: String)
        ensures
            s@ == callout_text(self.colored(), "ERR"@, message@, Tone::Danger),
    {
        self.callout("ERR", message, Tone::Danger)
    }

    /// A message aside.
    pub fn muted(&self, message: &str) -> (s: String)
        ensures
            s@ == painted(self.colored(), message@, Tone::Muted),
    {
        self.paint(message, Tone::Muted)
    }

    /// A label in brackets.
    pub fn badge(&self, label: &str, tone: BadgeTone) -> (s: String)
        ensures
            s@ == painted(self.colored(), "["@ + label@ + "]"@, badge_tone(tone)),
    {
        let tone = match tone {
            BadgeTone::Accent => Tone::Accent,
            BadgeTone::Success => Tone::Success,
            BadgeTone::Warning => Tone::Warning,
            BadgeTone::Danger => Tone::Danger,
            BadgeTone::Info => Tone::Info,
        };
        self.paint(concat3("[", label, "]").as_str(), tone)
    }

    /// How an event is shown in a table.
    pub fn event_cell(&self, event: EventType) -> (c: TableCell)
        ensures
            c@ == event_cell_view(event),
    {
        match event {
            EventType::Create => TableCell::plain("CREATE").success(),
            EventType::Modify => TableCell::plain("MODIFY").info(),
            EventType::Delete => TableCell::plain("DELETE").danger(),
        }
    }

    /// How a storage kind is shown in a table.
    pub fn storage_cell(&self, kind: StorageKind) -> (c: TableCell)
        ensures
            c@ == storage_cell_view(kind),
    {
        match kind {
            StorageKind::Full => TableCell::plain("FULL").success(),
            StorageKind::Patch => TableCell::plain("PATCH").warning(),
            StorageKind::Absent => TableCell::plain("NONE").danger(),
        }
    }

    /// A line of a diff in its tone.
    fn paint_diff_line(&self, line: &str) -> (s: String)
        ensures
            s@ == diff_line(self.colored(), line@),
    {
        if text_begins_with(line, "@@") {
            self.paint(line, Tone::Info)
        } else if text_begins_with(line, "+++") || text_begins_with(line, "---") {
            self.paint(line, Tone::Accent)
        } else if text_begins_with(line, "+") {
            self.paint(line, Tone::Success)
        } else if text_begins_with(line, "-") {
            self.paint(line, Tone::Danger)
        } else {
            line.to_owned()
        }
    }

    /// A diff, each line in its tone.
    pub fn render_diff(&self, diff: &str) -> (s: String)
        ensures
            s@ == diff_text(self.colored(), diff@),
    {
        let all = lines(diff);
        let ghost color = self.colored();
        let ghost expected = lines_of(diff@).map_values(|line: Seq<char>| diff_line(color, line));
        let mut out: Vec<String> = Vec::new();
        let mut i: usize = 0;
        while i < all.len()
            invariant
                i <= all@.len(),
                color == self.colored(),
                texts(all@) == lines_of(diff@),
                expected == lines_of(diff@).map_values(|line: Seq<char>| diff_line(color, line)),
                texts(out@) == expected.take(i as int),
            decreases all@.len() - i,
        {
            let ghost before = texts(out@);
            out.push(self.paint_diff_line(all[i].as_str()));
            proof {
                assert(texts(all@)[i as int] == all@[i as int]@);
                assert(texts(out@) =~= before.push(expected[i as int]));
                assert(expected.take(i + 1) =~= expected.take(i as int).push(expected[i as int]));
            }
            i += 1;
        }
        assert(expected.take(i as int) =~= expected);
        join(&out, "\n")
    }
}

// ---------------------------------------------------------------------------
// Lists and tables
// ---------------------------------------------------------------------------

/// The larger of two numbers.
pub open spec fn wider(a: nat, b: nat) -> nat {
    if b > a {
        b
    } else {
        a
    }
}

/// The views of labelled values.
pub open spec fn row_views(rows: Seq<(&str, String)>) -> Seq<(Seq<char>, Seq<char>)> {
    rows.map_values(|r: (&str, String)| (r.0@, r.1@))
}

/// The width of the longest label.
pub open spec fn label_width(rows: Seq<(Seq<char>, Seq<char>)>) -> nat
    decreases rows.len(),
{
    if rows.len() == 0 {
        0
    } else {
        wider(label_width(rows.drop_last()), byte_len(rows.last().0))
    }
}

/// A labelled value on a line of its own.
pub open spec fn key_value_line(color: bool, row: (Seq<char>, Seq<char>), width: nat) -> Seq<char> {
    painted(color, padded_right(row.0 + ":"@, width + 1), Tone::Muted) + " "@ + row.1
}

/// Labelled values, one to a line, the values one under the other.
pub open spec fn key_values_text(color: bool, rows: Seq<(Seq<char>, Seq<char>)>) -> Seq<char> {
    let width = label_width(rows);
    joined(
        rows.map_values(|r: (Seq<char>, Seq<char>)| key_value_line(color, r, width)),
        "\n"@,
    )
}

impl Ui {
    /// Labelled values, one to a line, the values one under the other.
    pub fn key_values(&self, rows: &Vec<(&str, String)>) -> (s: String)
        ensures
            s@ == key_values_text(self.colored(), row_views(rows@)),
    {
        let ghost all = row_views(rows@);
        let ghost color = self.colored();
        let mut width: usize = 0;
        let mut i: usize = 0;
        while i < rows.len()
            invariant
                i <= rows@.len(),
                all == row_views(rows@),
                width == label_width(all.take(i as int)),
            decreases rows@.len() - i,
        {
            assert(all.take(i + 1).drop_last() =~= all.take(i as int));
            assert(all.take(i + 1).last() == (rows@[i as int].0@, rows@[i as int].1@));
            let n: usize = size_of_text(rows[i].0);
            if n > width {
                width = n;
            }
            i += 1;
        }
        assert(all.take(i as int) =~= all);
        let ghost w = width as nat;
        let ghost expected = all.map_values(
            |r: (Seq<char>, Seq<char>)| key_value_line(color, r, w),
        );
        let mut out: Vec<String> = Vec::new();
        let mut k: usize = 0;
        while k < rows.len()
            invariant
                k <= rows@.len(),
                all == row_views(rows@),
                color == self.colored(),
                w == width,
                expected == all.map_values(
                    |r: (Seq<char>, Seq<char>)| key_value_line(color, r, w),
                ),
                texts(out@) == expected.take(k as int),
            decreases rows@.len() - k,
        {
            let ghost before = texts(out@);
            let label = rows[k].0;
            let mut padded = concat(label, ":");
            let count: usize = label.unicode_len();
            let missing: usize = if count < width {
                width - count
            } else {
                0
            };
            proof {
                reveal_strlit(":");
                assert((label@ + ":"@).len() == label@.len() + 1);
            }
            padded.append(repeated_text(' ', missing).as_str());
            assert(padded@ =~= padded_right(label@ + ":"@, w + 1));
            let mut line = self.paint(padded.as_str(), Tone::Muted);
            line.append(" ");
            line.append(rows[k].1.as_str());
            out.push(line);
            proof {
                assert(all[k as int] == (rows@[k as int].0@, rows@[k as int].1@));
                assert(texts(out@) =~= before.push(expected[k as int]));
                assert(expected.take(k + 1) =~= expected.take(k as int).push(expected[k as int]));
            }
            k += 1;
        }
        assert(expected.take(k as int) =~= expected);
        join(&out, "\n")
    }
}

/// The views of the cells of a row.
pub open spec fn cells(row: Seq<TableCell>) -> Seq<Cell> {
    row.map_values(|c: TableCell| c@)
}

/// The views of the rows of a table.
pub open spec fn cell_rows(rows: Seq<Vec<TableCell>>) -> Seq<Seq<Cell>> {
    rows.map_values(|r: Vec<TableCell>| cells(r@))
}

/// The views of the headers of a table.
pub open spec fn header_views(headers: Seq<&str>) -> Seq<Seq<char>> {
    headers.map_values(|h: &str| h@)
}

/// The width of a column: that of its header, or of its widest cell.
pub open spec fn column_width(headers: Seq<Seq<char>>, rows: Seq<Seq<Cell>>, i: int) -> nat
    decreases rows.len(),
{
    if rows.len() == 0 {
        byte_len(headers[i])
    } else {
        let before = column_width(headers, rows.drop_last(), i);
        if i < rows.last().len() {
            wider(before, byte_len(rows.last()[i].raw))
        } else {
            before
        }
    }
}

/// The line with the headers of a table.
pub open spec fn header_line(headers: Seq<Seq<char>>, rows: Seq<Seq<Cell>>) -> Seq<char> {
    joined(
        Seq::new(
            headers.len(),
            |i: int| padded_right(headers[i], column_width(headers, rows, i)),
        ),
        " | "@,
    )
}

/// The line under the headers of a table.
pub open spec fn separator_line(headers: Seq<Seq<char>>, rows: Seq<Seq<Cell>>) -> Seq<char> {
    joined(
        Seq::new(headers.len(), |i: int| repeated('-', column_width(headers, rows, i))),
        "-+-"@,
    )
}

/// The line with the cells of a row.
pub open spec fn row_line(
    color: bool,
    headers: Seq<Seq<char>>,
    rows: Seq<Seq<Cell>>,
    row: Seq<Cell>,
) -> Seq<char> {
    joined(
        Seq::new(
            row.len(),
            |i: int| rendered(color, row[i], column_width(headers, rows, i)),
        ),
        " | "@,
    )
}

/// The lines of a table.
pub open spec fn table_lines(color: bool, headers: Seq<Seq<char>>, rows: Seq<Seq<Cell>>) -> Seq<
    Seq<char>,
> {
    seq![
        painted(color, header_line(headers, rows), Tone::Info),
        painted(color, separator_line(headers, rows), Tone::Muted),
    ] + rows.map_values(|row: Seq<Cell>| row_line(color, headers, rows, row))
}

/// A table: headers, a line under them, and rows, in columns of one width.
pub open spec fn table_text(color: bool, headers: Seq<Seq<char>>, rows: Seq<Seq<Cell>>) -> Seq<
    char,
> {
    joined(table_lines(color, headers, rows), "\n"@)
}

/// The widths of all columns.
fn column_widths(headers: &Vec<&str>, rows: &Vec<Vec<TableCell>>) -> (widths: Vec<usize>)
    requires
        forall|r: int| 0 <= r < rows@.len() ==> (#[trigger] rows@[r])@.len() <= headers@.len(),
    ensures
        widths@.len() == headers@.len(),
        forall|i: int|
            0 <= i < widths@.len() ==> #[trigger] widths@[i] == column_width(
                header_views(headers@),
                cell_rows(rows@),
                i,
            ),
{
    let ghost heads = header_views(headers@);
    let ghost all = cell_rows(rows@);
    let mut widths: Vec<usize> = Vec::new();
    let mut i: usize = 0;
    while i < headers.len()
        invariant
            i <= headers@.len(),
            heads == header_views(headers@),
            widths@.len() == i,
            forall|k: int|
                0 <= k < i ==> #[trigger] widths@[k] == column_width(heads, all.take(0), k),
        decreases headers@.len() - i,
    {
        assert(heads[i as int] == headers@[i as int]@);
        widths.push(size_of_text(headers[i]));
        i += 1;
    }
    let mut r: usize = 0;
    while r < rows.len()
        invariant
            r <= rows@.len(),
            heads == header_views(headers@),
            all == cell_rows(rows@),
            widths@.len() == headers@.len(),
            forall|q: int| 0 <= q < rows@.len() ==> (#[trigger] rows@[q])@.len() <= headers@.len(),
            forall|k: int|
                0 <= k < widths@.len() ==> #[trigger] widths@[k] == column_width(
                    heads,
                    all.take(r as int),
                    k,
                ),
        decreases rows@.len() - r,
    {
        let row = &rows[r];
        let ghost done = all.take(r + 1);
        proof {
            assert(rows@[r as int]@.len() <= headers@.len());
            assert(done.drop_last() =~= all.take(r as int));
            assert(done.last() == cells(row@));
        }
        let mut c: usize = 0;
        while c < row.len()
            invariant
                c <= row@.len() <= headers@.len(),
                widths@.len() == headers@.len(),
                done.len() > 0,
                done.last() == cells(row@),
                forall|k: int|
                    0 <= k < c ==> #[trigger] widths@[k] == column_width(heads, done, k),
                forall|k: int|
                    c <= k < widths@.len() ==> #[trigger] widths@[k] == column_width(
                        heads,
                        done.drop_last(),
                        k,
                    ),
            decreases row@.len() - c,
        {
            let n: usize = row[c].width();
            assert(done.last()[c as int] == row@[c as int]@);
            if n > widths[c] {
                widths.set(c, n);
            }
            c += 1;
        }
        r += 1;
    }
    assert(all.take(r as int) =~= all);
    widths
}

impl Ui {
    /// The line with the cells of a row.
    fn row_text(
        &self,
        row: &Vec<TableCell>,
        widths: &Vec<usize>,
        Ghost(headers): Ghost<Seq<Seq<char>>>,
        Ghost(rows): Ghost<Seq<Seq<Cell>>>,
    ) -> (s: String)
        requires
            row@.len() <= widths@.len(),
            forall|i: int|
                0 <= i < widths@.len() ==> #[trigger] widths@[i] == column_width(headers, rows, i),
        ensures
            s@ == row_line(self.colored(), headers, rows, cells(row@)),
    {
        let ghost color = self.colored();
        let ghost view = cells(row@);
        let ghost expected = Seq::new(
            view.len(),
            |i: int| rendered(color, view[i], column_width(headers, rows, i)),
        );
        let mut out: Vec<String> = Vec::new();
        let mut c: usize = 0;
        while c < row.len()
            invariant
                c <= row@.len() <= widths@.len(),
                color == self.colored(),
                view == cells(row@),
                expected == Seq::new(
                    view.len(),
                    |i: int| rendered(color, view[i], column_width(headers, rows, i)),
                ),
                texts(out@) == expected.take(c as int),
                forall|i: int|
                    0 <= i < widths@.len() ==> #[trigger] widths@[i] == column_width(
                        headers,
                        rows,
                        i,
                    ),
            decreases row@.len() - c,
        {
            let ghost before = texts(out@);
            out.push(row[c].render(self, widths[c]));
            proof {
                assert(view[c as int] == row@[c as int]@);
                assert(texts(out@) =~= before.push(expected[c as int]));
                assert(expected.take(c + 1) =~= expected.take(c as int).push(expected[c as int]));
            }
            c += 1;
        }
        assert(expected.take(c as int) =~= expected);
        join(&out, " | ")
    }

    /// A table: headers, a line under them, and rows, in columns of one width. No row has
    /// more cells than there are headers.
    pub fn table(&self, headers: &Vec<&str>, rows: &Vec<Vec<TableCell>>) -> (s: String)
        requires
            forall|r: int| 0 <= r < rows@.len() ==> (#[trigger] rows@[r])@.len() <= headers@.len(),
        ensures
            s@ == table_text(self.colored(), header_views(headers@), cell_rows(rows@)),
    {
        let ghost color = self.colored();
        let ghost heads = header_views(headers@);
        let ghost all = cell_rows(rows@);
        let widths = column_widths(headers, rows);
        let ghost names = Seq::new(
            heads.len(),
            |i: int| padded_right(heads[i], column_width(heads, all, i)),
        );
        let ghost rules = Seq::new(
            heads.len(),
            |i: int| repeated('-', column_width(heads, all, i)),
        );
        let mut header_cells: Vec<String> = Vec::new();
        let mut rule_cells: Vec<String> = Vec::new();
        let mut i: usize = 0;
        while i < headers.len()
            invariant
                i <= headers@.len() == widths@.len(),
                heads == header_views(headers@),
                names == Seq::new(
                    heads.len(),
                    |i: int| padded_right(heads[i], column_width(heads, all, i)),
                ),
                rules == Seq::new(heads.len(), |i: int| repeated('-', column_width(heads, all, i))),
                texts(header_cells@) == names.take(i as int),
                texts(rule_cells@) == rules.take(i as int),
                forall|k: int|
                    0 <= k < widths@.len() ==> #[trigger] widths@[k] == column_width(heads, all, k),
            decreases headers@.len() - i,
        {
            let ghost before = texts(header_cells@);
            let ghost rules_before = texts(rule_cells@);
            header_cells.push(pad_right(headers[i], widths[i]));
            rule_cells.push(repeated_text('-', widths[i]));
            proof {
                assert(heads[i as int] == headers@[i as int]@);
                assert(texts(header_cells@) =~= before.push(names[i as int]));
                assert(names.take(i + 1) =~= names.take(i as int).push(names[i as int]));
                assert(texts(rule_cells@) =~= rules_before.push(rules[i as int]));
                assert(rules.take(i + 1) =~= rules.take(i as int).push(rules[i as int]));
            }
            i += 1;
        }
        assert(names.take(i as int) =~= names);
        assert(rules.take(i as int) =~= rules);
        let ghost expected = table_lines(color, heads, all);
        let mut out: Vec<String> = Vec::new();
        out.push(self.paint(join(&header_cells, " | ").as_str(), Tone::Info));
        out.push(self.paint(join(&rule_cells, "-+-").as_str(), Tone::Muted));
        assert(texts(out@) =~= expected.take(2));
        let mut r: usize = 0;
        while r < rows.len()
            invariant
                r <= rows@.len(),
                color == self.colored(),
                all == cell_rows(rows@),
                widths@.len() == headers@.len(),
                expected == table_lines(color, heads, all),
                texts(out@) == expected.take(2 + r),
                forall|q: int|
                    0 <= q < rows@.len() ==> (#[trigger] rows@[q])@.len() <= headers@.len(),
                forall|k: int|
                    0 <= k < widths@.len() ==> #[trigger] widths@[k] == column_width(heads, all, k),
            decreases rows@.len() - r,
        {
            let ghost before = texts(out@);
            assert(rows@[r as int]@.len() <= headers@.len());
            out.push(self.row_text(&rows[r], &widths, Ghost(heads), Ghost(all)));
            proof {
                assert(all[r as int] == cells(rows@[r as int]@));
                assert(expected[2 + r] == row_line(color, heads, all, all[r as int]));
                assert(texts(out@) =~= before.push(expected[2 + r]));
                assert(expected.take(3 + r) =~= expected.take(2 + r).push(expected[2 + r]));
            }
            r += 1;
        }
        assert(expected.take(2 + r) =~= expected);
        join(&out, "\n")
    }
}

// ---------------------------------------------------------------------------
// Sizes
// ---------------------------------------------------------------------------

/// A quotient rounded to the nearest whole number; a tie goes to the even one.
pub open spec fn rounded_quotient(n: nat, d: nat) -> nat
    recommends
        d > 0,
{
    let q = n / d;
    let r = n % d;
    if 2 * r < d || (2 * r == d && q % 2 == 0) {
        q
    } else {
        q + 1
    }
}

/// The smallest of `p`, `2p`, `4p` and so on with which a number has at most 53 binary
/// digits in front.
pub open spec fn last_place(n: nat, p: nat) -> nat
    decreases n - p,
{
    if p == 0 || n < 9_007_199_254_740_992 * p {
        p
    } else {
        last_place(n, 2 * p)
    }
}

/// A number rounded to 53 binary digits; a tie goes to the even one.
pub open spec fn in_53_bits(n: nat) -> nat {
    rounded_quotient(n, last_place(n, 1)) * last_place(n, 1)
}

/// The unit in which a size is shown, and how many bytes it has.
pub open spec fn size_unit(size: nat) -> (Seq<char>, nat) {
    if size < 1_024 {
        ("B"@, 1)
    } else if size < 1_048_576 {
        ("KB"@, 1_024)
    } else if size < 1_073_741_824 {
        ("MB"@, 1_048_576)
    } else if size < 1_099_511_627_776 {
        ("GB"@, 1_073_741_824)
    } else {
        ("TB"@, 1_099_511_627_776)
    }
}

/// How a size is shown: in bytes, or in a larger unit with one decimal below ten and
/// without decimals from ten on. Sizes of more than 53 binary digits are rounded first.
pub open spec fn size_text(bytes: nat) -> Seq<char> {
    let size = in_53_bits(bytes);
    let (name, unit) = size_unit(size);
    if unit == 1 {
        decimal(bytes) + " "@ + name
    } else if size >= 10 * unit {
        decimal(rounded_quotient(size, unit)) + " "@ + name
    } else {
        let tenths = rounded_quotient(10 * size, unit);
        decimal(tenths / 10) + "."@ + decimal(tenths % 10) + " "@ + name
    }
}

fn round_quotient(n: u128, d: u128) -> (r: u128)
    requires
        0 < d <= 0xffff_ffff_ffff_ffff,
        n <= 0xffff_ffff_ffff_ffff_ffff,
    ensures
        r == rounded_quotient(n as nat, d as nat),
        r <= n + 1,
{
    let q: u128 = n / d;
    let rest: u128 = n % d;
    proof {
        vstd::arithmetic::div_mod::lemma_div_is_ordered_by_denominator(n as int, 1, d as int);
        vstd::arithmetic::div_mod::lemma_div_basics(n as int);
    }
    if 2 * rest < d || (2 * rest == d && q % 2 == 0) {
        q
    } else {
        q + 1
    }
}

fn find_last_place(n: u64) -> (p: u128)
    ensures
        p == last_place(n as nat, 1),
        1 <= p <= 4096,
        n < 9_007_199_254_740_992 * p,
{
    let mut p: u128 = 1;
    while n as u128 >= 9_007_199_254_740_992 * p
        invariant
            1 <= p <= 4096,
            last_place(n as nat, p as nat) == last_place(n as nat, 1),
        decreases n - p,
    {
        p = 2 * p;
    }
    p
}

/// How a size is shown.
pub fn human_bytes(bytes: u64) -> (s: String)
    ensures
        s@ == size_text(bytes as nat),
{
    let p: u128 = find_last_place(bytes);
    let q: u128 = round_quotient(bytes as u128, p);
    proof {
        lemma_rounded_fits(bytes as nat, p as nat, q as nat);
    }
    let size: u128 = q * p;
    assert(size == in_53_bits(bytes as nat));
    let (name, unit): (&str, u128) = if size < 1_024 {
        ("B", 1)
    } else if size < 1_048_576 {
        ("KB", 1_024)
    } else if size < 1_073_741_824 {
        ("MB", 1_048_576)
    } else if size < 1_099_511_627_776 {
        ("GB", 1_073_741_824)
    } else {
        ("TB", 1_099_511_627_776)
    };
    let mut s = if unit == 1 {
        decimal_text(bytes)
    } else if size >= 10 * unit {
        let whole: u128 = round_quotient(size, unit);
        assert(whole <= u64::MAX) by {
            lemma_quotient_fits(size as nat, unit as nat);
        }
        decimal_text(whole as u64)
    } else {
        let tenths: u128 = round_quotient(10 * size, unit);
        assert(tenths <= u64::MAX) by {
            lemma_quotient_fits((10 * size) as nat, unit as nat);
        }
        let mut t = decimal_text((tenths / 10) as u64);
        t.append(".");
        t.append(decimal_text((tenths % 10) as u64).as_str());
        t
    };
    s.append(" ");
    s.append(name);
    s
}

proof fn lemma_rounded_fits(n: nat, p: nat, q: nat)
    requires
        1 <= p <= 4096,
        n <= u64::MAX,
        n < 9_007_199_254_740_992 * p,
        q == rounded_quotient(n, p),
    ensures
        q * p <= n + p,
        q <= n + 1,
{
    vstd::arithmetic::div_mod::lemma_fundamental_div_mod(n as int, p as int);
    let d = n / p;
    assert((d + 1) * p == d * p + p) by (nonlinear_arith);
    assert(p * d == d * p) by (nonlinear_arith);
    vstd::arithmetic::div_mod::lemma_div_is_ordered_by_denominator(n as int, 1, p as int);
    vstd::arithmetic::div_mod::lemma_div_basics(n as int);
}

proof fn lemma_quotient_fits(n: nat, d: nat)
    requires
        d >= 1_024,
        n <= 0xff_ffff_ffff_ffff_ffff,
    ensures
        rounded_quotient(n, d) <= u64::MAX,
{
    vstd::arithmetic::div_mod::lemma_div_is_ordered_by_denominator(n as int, 1_024, d as int);
}

} // verus!
