//! What each command tells the user.
use vstd::prelude::*;
use vstd::string::*;

use crate::config::TimelineConfig;
use crate::git::{git_label, short_head_of, GitContextView, RuntimeContext, RuntimeView};
use crate::path::{display_restore_path, shown_path};
use crate::restore::{
    action_path,
    action_views,
    removals,
    writes,
    ActionView,
    ProjectRestoreSummary,
    RestoreAction,
    RestorePlan,
};
use crate::snapshot::ScanSummary;
use crate::store::listing::{
    history,
    recent,
    recent_views,
    HistoryEntry,
    RecentChange,
    RecentView,
    StatusSummary,
};
use crate::store::lookup::{context_id_of, state_at, state_in};
use crate::store::prune::PruneSummary;
use crate::store::tables::{StoreError, Tables, TimelineStore};
use crate::text::{
    byte_len,
    concat,
    concat3,
    decimal,
    decimal_text,
    opt_text,
    same_text,
    signed_decimal,
    signed_decimal_text,
    texts,
};
use crate::time::{
    can_show,
    format_exact_and_human,
    is_showable,
    shows_time,
};
use crate::ui::{
    callout_text,
    cell_rows,
    cells,
    diff_text,
    event_cell_view,
    header_views,
    human_bytes,
    key_values_text,
    painted,
    row_views,
    size_text,
    storage_cell_view,
    table_text,
    title_text,
    Align,
    BadgeTone,
    Cell,
    TableCell,
    Tone,
    Ui,
};

verus! {

/// How a context is shown.
pub open spec fn context_label(context: RuntimeView) -> Seq<char> {
    match context.git {
        Some(git) => git_label(git),
        None => "local timeline"@,
    }
}

/// A cell with its text on the left.
pub open spec fn plain_cell(text: Seq<char>) -> Cell {
    Cell { raw: text, align: Align::Left, tone: None }
}

/// A cell with its text on the right.
pub open spec fn right_cell(text: Seq<char>) -> Cell {
    Cell { raw: text, align: Align::Right, tone: None }
}

/// A size that may not be known.
pub open spec fn opt_size_text(size: Option<i64>) -> Seq<char> {
    match size {
        Some(n) => size_text((n as u64) as nat),
        None => "-"@,
    }
}

fn size_or_dash(size: Option<i64>) -> (s: String)
    ensures
        s@ == opt_size_text(size),
{
    match size {
        Some(n) => human_bytes(n as u64),
        None => "-".to_owned(),
    }
}

/// Whether texts show the given times, one each.
pub open spec fn show_times(whens: Seq<Seq<char>>, times: Seq<i64>) -> bool {
    &&& whens.len() == times.len()
    &&& forall|i: int| 0 <= i < times.len() ==> shows_time(#[trigger] whens[i], times[i])
}

/// Whether all of some times can be shown together with their distance from now.
pub open spec fn all_showable(times: Seq<i64>) -> bool {
    forall|i: int| 0 <= i < times.len() ==> is_showable(#[trigger] times[i])
}

fn can_show_all(times: &Vec<i64>) -> (r: bool)
    ensures
        r == all_showable(times@),
{
    let mut i: usize = 0;
    while i < times.len()
        invariant
            i <= times@.len(),
            forall|j: int| 0 <= j < i ==> is_showable(#[trigger] times@[j]),
        decreases times@.len() - i,
    {
        if !can_show(times[i]) {
            assert(!is_showable(times@[i as int]));
            return false;
        }
        i += 1;
    }
    true
}

/// The texts that show times now.
fn show_all(times: &Vec<i64>) -> (whens: Vec<String>)
    requires
        all_showable(times@),
    ensures
        show_times(texts(whens@), times@),
{
    let mut whens: Vec<String> = Vec::new();
    let mut i: usize = 0;
    while i < times.len()
        invariant
            i <= times@.len(),
            all_showable(times@),
            whens@.len() == i,
            forall|k: int| 0 <= k < i ==> shows_time(#[trigger] texts(whens@)[k], times@[k]),
        decreases times@.len() - i,
    {
        let ghost before = texts(whens@);
        assert(is_showable(times@[i as int]));
        let when = format_exact_and_human(times[i]);
        let ghost shown = when@;
        whens.push(when);
        proof {
            let after = texts(whens@);
            assert forall|k: int| 0 <= k < i + 1 implies shows_time(
                #[trigger] after[k],
                times@[k],
            ) by {
                if k < i {
                    assert(after[k] == before[k]);
                } else {
                    assert(after[k] == shown);
                }
            }
        }
        i += 1;
    }
    whens
}

// ---------------------------------------------------------------------------
// Watch
// ---------------------------------------------------------------------------

/// What a watcher tells when it starts.
pub open spec fn watch_text(color: bool, root: Seq<char>, pid: i64, scan: ScanSummary) -> Seq<
    char,
> {
    title_text(color, "Watching"@, root) + "\n"@ + key_values_text(
        color,
        seq![
            (
                "Watcher"@,
                painted(color, "["@ + "RUNNING"@ + "]"@, Tone::Success),
            ),
            ("Pid"@, signed_decimal(pid as int)),
            ("Initial changes"@, decimal(scan.tracked_files as nat)),
            ("Initial deletions"@, decimal(scan.deleted_files as nat)),
        ],
    )
}

/// What a watcher tells when it starts.
pub fn watch_report(ui: &Ui, root: &str, pid: i64, scan: ScanSummary) -> (s: String)
    ensures
        s@ == watch_text(ui.colored(), root@, pid, scan),
{
    let mut rows: Vec<(&str, String)> = Vec::new();
    rows.push(("Watcher", ui.badge("RUNNING", BadgeTone::Success)));
    rows.push(("Pid", signed_decimal_text(pid)));
    rows.push(("Initial changes", decimal_text(scan.tracked_files as u64)));
    rows.push(("Initial deletions", decimal_text(scan.deleted_files as u64)));
    let mut s = ui.title("Watching", root);
    s.append("\n");
    s.append(ui.key_values(&rows).as_str());
    assert(row_views(rows@) =~= seq![
        (
            "Watcher"@,
            painted(ui.colored(), "["@ + "RUNNING"@ + "]"@, Tone::Success),
        ),
        ("Pid"@, signed_decimal(pid as int)),
        ("Initial changes"@, decimal(scan.tracked_files as nat)),
        ("Initial deletions"@, decimal(scan.deleted_files as nat)),
    ]);
    s
}

// ---------------------------------------------------------------------------
// History
// ---------------------------------------------------------------------------

/// The times of a history.
pub open spec fn history_times(entries: Seq<HistoryEntry>) -> Seq<i64> {
    entries.map_values(|e: HistoryEntry| e.recorded_at_ms)
}

/// One row of a history.
pub open spec fn history_row(entry: HistoryEntry, when: Seq<char>) -> Seq<Cell> {
    seq![
        plain_cell(when),
        event_cell_view(entry.event_type),
        right_cell(opt_size_text(entry.size_bytes)),
        storage_cell_view(entry.storage_kind),
    ]
}

/// What is told of the history of a file, each time shown by a given text.
pub open spec fn history_text(
    color: bool,
    relative: Seq<char>,
    label: Seq<char>,
    entries: Seq<HistoryEntry>,
    whens: Seq<Seq<char>>,
) -> Seq<char> {
    if entries.len() == 0 {
        callout_text(
            color,
            "WARN"@,
            "No history recorded for "@ + relative + " in "@ + label,
            Tone::Warning,
        )
    } else {
        title_text(color, "History"@, relative + " ("@ + label + ")"@) + "\n"@ + table_text(
            color,
            seq!["When"@, "Event"@, "Size"@, "Storage"@],
            Seq::new(entries.len(), |i: int| history_row(entries[i], whens[i])),
        )
    }
}

/// What is told of the history of a file, each time shown by a given text.
pub fn history_report_with(
    ui: &Ui,
    relative: &str,
    label: &str,
    entries: &Vec<HistoryEntry>,
    whens: &Vec<String>,
) -> (s: String)
    requires
        whens@.len() == entries@.len(),
    ensures
        s@ == history_text(ui.colored(), relative@, label@, entries@, texts(whens@)),
{
    if entries.len() == 0 {
        let mut m = "No history recorded for ".to_owned();
        m.append(relative);
        m.append(" in ");
        m.append(label);
        return ui.warning(m.as_str());
    }
    let ghost shown = texts(whens@);
    let ghost expected = Seq::new(
        entries@.len(),
        |i: int| history_row(entries@[i], shown[i]),
    );
    let mut rows: Vec<Vec<TableCell>> = Vec::new();
    let mut i: usize = 0;
    while i < entries.len()
        invariant
            i <= entries@.len() == whens@.len(),
            shown == texts(whens@),
            expected == Seq::new(
                entries@.len(),
                |i: int| history_row(entries@[i], shown[i]),
            ),
            cell_rows(rows@) == expected.take(i as int),
            forall|r: int| 0 <= r < rows@.len() ==> (#[trigger] rows@[r])@.len() == 4,
        decreases entries@.len() - i,
    {
        let ghost before = cell_rows(rows@);
        let entry = &entries[i];
        let mut row: Vec<TableCell> = Vec::new();
        row.push(TableCell::plain(whens[i].as_str()));
        row.push(ui.event_cell(entry.event_type));
        row.push(TableCell::right(size_or_dash(entry.size_bytes).as_str()));
        row.push(ui.storage_cell(entry.storage_kind));
        proof {
            assert(shown[i as int] == whens@[i as int]@);
            assert(cells(row@) =~= expected[i as int]);
        }
        let ghost view = cells(row@);
        rows.push(row);
        proof {
            assert(cell_rows(rows@) =~= before.push(view));
            assert(expected.take(i + 1) =~= expected.take(i as int).push(expected[i as int]));
        }
        i += 1;
    }
    assert(expected.take(i as int) =~= expected);
    let mut context = concat3(relative, " (", label);
    context.append(")");
    let mut headers: Vec<&str> = Vec::new();
    headers.push("When");
    headers.push("Event");
    headers.push("Size");
    headers.push("Storage");
    assert(header_views(headers@) =~= seq!["When"@, "Event"@, "Size"@, "Storage"@]);
    let mut s = ui.title("History", context.as_str());
    s.append("\n");
    s.append(ui.table(&headers, &rows).as_str());
    s
}

/// The history of a file in a context that may not have a number.
pub open spec fn history_in(t: Tables, fingerprint: Seq<char>, relative: Seq<char>) -> Seq<
    HistoryEntry,
> {
    match context_id_of(t.contexts, fingerprint) {
        Some(id) => history(t, relative, id),
        None => Seq::empty(),
    }
}

fn history_entries(store: &TimelineStore, relative: &str, context: &RuntimeContext) -> (entries:
    Vec<HistoryEntry>)
    requires
        store.wf(),
    ensures
        entries@ == history_in(store.tables(), context@.fingerprint, relative@),
{
    match store.resolve_context_id(context) {
        Some(id) => store.file_history(relative, id),
        None => Vec::new(),
    }
}

fn times_of_history(entries: &Vec<HistoryEntry>) -> (times: Vec<i64>)
    ensures
        times@ == history_times(entries@),
{
    let mut times: Vec<i64> = Vec::new();
    let mut i: usize = 0;
    while i < entries.len()
        invariant
            i <= entries@.len(),
            times@ == history_times(entries@).take(i as int),
        decreases entries@.len() - i,
    {
        times.push(entries[i].recorded_at_ms);
        assert(times@ =~= history_times(entries@).take(i + 1));
        i += 1;
    }
    assert(times@ =~= history_times(entries@));
    times
}

/// Whether every time in the history of a file can be shown.
pub fn can_show_history(store: &TimelineStore, relative: &str, context: &RuntimeContext) -> (r:
    bool)
    requires
        store.wf(),
    ensures
        r == all_showable(
            history_times(history_in(store.tables(), context@.fingerprint, relative@)),
        ),
{
    can_show_all(&times_of_history(&history_entries(store, relative, context)))
}

/// What is told of the history of a file in a context.
pub fn history_report(
    ui: &Ui,
    store: &TimelineStore,
    relative: &str,
    context: &RuntimeContext,
) -> (s: String)
    requires
        store.wf(),
        all_showable(history_times(history_in(store.tables(), context@.fingerprint, relative@))),
    ensures
        ({
            let entries = history_in(store.tables(), context@.fingerprint, relative@);
            exists|whens: Seq<Seq<char>>|
                show_times(whens, history_times(entries)) && s@ == #[trigger] history_text(
                    ui.colored(),
                    relative@,
                    context_label(context@),
                    entries,
                    whens,
                )
        }),
{
    let entries = history_entries(store, relative, context);
    let times = times_of_history(&entries);
    let whens = show_all(&times);
    let label = context.display_label();
    assert(label@ == context_label(context@));
    history_report_with(ui, relative, label.as_str(), &entries, &whens)
}

// ---------------------------------------------------------------------------
// Recent changes
// ---------------------------------------------------------------------------

/// Why a command is refused.
#[derive(Debug, Clone, Copy, PartialEq, Eq, Structural)]
pub enum CommandError {
    /// No changes at all were asked for.
    ZeroLimit,
}

impl CommandError {
    /// What the error says to the user.
    pub fn message(&self) -> (m: &'static str)
        ensures
            m@ == "--limit must be greater than zero"@,
    {
        "--limit must be greater than zero"
    }
}

/// Refuses a limit of zero.
pub fn validate_limit(limit: usize) -> (res: Result<(), CommandError>)
    ensures
        limit == 0 ==> res == Err::<(), CommandError>(CommandError::ZeroLimit),
        limit > 0 ==> res == Ok::<(), CommandError>(()),
{
    if limit == 0 {
        Err(CommandError::ZeroLimit)
    } else {
        Ok(())
    }
}

/// The times of recent changes.
pub open spec fn recent_times(changes: Seq<RecentView>) -> Seq<i64> {
    changes.map_values(|c: RecentView| c.recorded_at_ms)
}

/// What is told of recent changes, each time shown by a given text.
pub open spec fn recent_text(
    color: bool,
    label: Seq<char>,
    limit: nat,
    changes: Seq<RecentView>,
    whens: Seq<Seq<char>>,
) -> Seq<char> {
    if changes.len() == 0 {
        callout_text(color, "WARN"@, "No changes captured yet in "@ + label, Tone::Warning)
    } else {
        title_text(color, "Recent Changes"@, label + " | limit "@ + decimal(limit)) + "\n"@
            + table_text(
            color,
            seq!["When"@, "Event"@, "Path"@],
            Seq::new(
                changes.len(),
                |i: int|
                    seq![
                        plain_cell(whens[i]),
                        event_cell_view(changes[i].event_type),
                        plain_cell(changes[i].path),
                    ],
            ),
        )
    }
}

/// What is told of recent changes, each time shown by a given text.
pub fn recent_report_with(
    ui: &Ui,
    label: &str,
    limit: usize,
    changes: &Vec<RecentChange>,
    whens: &Vec<String>,
) -> (s: String)
    requires
        whens@.len() == changes@.len(),
    ensures
        s@ == recent_text(
            ui.colored(),
            label@,
            limit as nat,
            recent_views(changes@),
            texts(whens@),
        ),
{
    if changes.len() == 0 {
        return ui.warning(concat("No changes captured yet in ", label).as_str());
    }
    let ghost shown = texts(whens@);
    let ghost all = recent_views(changes@);
    let ghost expected = Seq::new(
        all.len(),
        |i: int|
            seq![
                plain_cell(shown[i]),
                event_cell_view(all[i].event_type),
                plain_cell(all[i].path),
            ],
    );
    let mut rows: Vec<Vec<TableCell>> = Vec::new();
    let mut i: usize = 0;
    while i < changes.len()
        invariant
            i <= changes@.len() == whens@.len(),
            shown == texts(whens@),
            all == recent_views(changes@),
            expected == Seq::new(
                all.len(),
                |i: int|
                    seq![
                        plain_cell(shown[i]),
                        event_cell_view(all[i].event_type),
                        plain_cell(all[i].path),
                    ],
            ),
            cell_rows(rows@) == expected.take(i as int),
            forall|r: int| 0 <= r < rows@.len() ==> (#[trigger] rows@[r])@.len() == 3,
        decreases changes@.len() - i,
    {
        let ghost before = cell_rows(rows@);
        let change = &changes[i];
        let mut row: Vec<TableCell> = Vec::new();
        row.push(TableCell::plain(whens[i].as_str()));
        row.push(ui.event_cell(change.event_type));
        row.push(TableCell::plain(change.path.as_str()));
        proof {
            assert(shown[i as int] == whens@[i as int]@);
            assert(all[i as int] == change@);
            assert(cells(row@) =~= expected[i as int]);
        }
        let ghost view = cells(row@);
        rows.push(row);
        proof {
            assert(cell_rows(rows@) =~= before.push(view));
            assert(expected.take(i + 1) =~= expected.take(i as int).push(expected[i as int]));
        }
        i += 1;
    }
    assert(expected.take(i as int) =~= expected);
    let context = concat3(label, " | limit ", decimal_text(limit as u64).as_str());
    let mut headers: Vec<&str> = Vec::new();
    headers.push("When");
    headers.push("Event");
    headers.push("Path");
    assert(header_views(headers@) =~= seq!["When"@, "Event"@, "Path"@]);
    let mut s = ui.title("Recent Changes", context.as_str());
    s.append("\n");
    s.append(ui.table(&headers, &rows).as_str());
    s
}

/// The recent changes in a context that may not have a number.
pub open spec fn recent_in(t: Tables, fingerprint: Seq<char>, limit: nat) -> Seq<RecentView> {
    match context_id_of(t.contexts, fingerprint) {
        Some(id) => recent(t, limit, id),
        None => Seq::empty(),
    }
}

fn latest_changes(store: &TimelineStore, limit: usize, context: &RuntimeContext) -> (changes: Vec<
    RecentChange,
>)
    requires
        store.wf(),
    ensures
        recent_views(changes@) == recent_in(store.tables(), context@.fingerprint, limit as nat),
{
    match store.resolve_context_id(context) {
        Some(id) => store.recent_changes(limit, id),
        None => {
            let none: Vec<RecentChange> = Vec::new();
            assert(recent_views(none@) =~= Seq::<RecentView>::empty());
            none
        },
    }
}

fn times_of_changes(changes: &Vec<RecentChange>) -> (times: Vec<i64>)
    ensures
        times@ == recent_times(recent_views(changes@)),
{
    let ghost all = recent_views(changes@);
    let mut times: Vec<i64> = Vec::new();
    let mut i: usize = 0;
    while i < changes.len()
        invariant
            i <= changes@.len(),
            all == recent_views(changes@),
            times@ == recent_times(all).take(i as int),
        decreases changes@.len() - i,
    {
        assert(all[i as int] == changes@[i as int]@);
        times.push(changes[i].recorded_at_ms);
        assert(times@ =~= recent_times(all).take(i + 1));
        i += 1;
    }
    assert(times@ =~= recent_times(all));
    times
}

/// Whether the times of all recent changes can be shown.
pub fn can_show_recent(store: &TimelineStore, limit: usize, context: &RuntimeContext) -> (r: bool)
    requires
        store.wf(),
    ensures
        r == all_showable(
            recent_times(recent_in(store.tables(), context@.fingerprint, limit as nat)),
        ),
{
    can_show_all(&times_of_changes(&latest_changes(store, limit, context)))
}

/// What is told of recent changes in a context.
pub fn recent_report(
    ui: &Ui,
    store: &TimelineStore,
    limit: usize,
    context: &RuntimeContext,
) -> (s: String)
    requires
        store.wf(),
        all_showable(recent_times(recent_in(store.tables(), context@.fingerprint, limit as nat))),
    ensures
        ({
            let changes = recent_in(store.tables(), context@.fingerprint, limit as nat);
            exists|whens: Seq<Seq<char>>|
                show_times(whens, recent_times(changes)) && s@ == #[trigger] recent_text(
                    ui.colored(),
                    context_label(context@),
                    limit as nat,
                    changes,
                    whens,
                )
        }),
{
    let changes = latest_changes(store, limit, context);
    let times = times_of_changes(&changes);
    let whens = show_all(&times);
    let label = context.display_label();
    assert(label@ == context_label(context@));
    recent_report_with(ui, label.as_str(), limit, &changes, &whens)
}

// ---------------------------------------------------------------------------
// Diff
// ---------------------------------------------------------------------------

/// The unified diff between two texts that `similar` writes, under the given labels.
pub uninterp spec fn unified_diff(
    left: Seq<char>,
    right: Seq<char>,
    left_label: Seq<char>,
    right_label: Seq<char>,
) -> Seq<char>;

/// `similar::TextDiff::from_lines`, its unified diff written out with a header. The text
/// depends on the four arguments alone.
#[verifier::external_body]
fn write_unified_diff(left: &str, right: &str, left_label: &str, right_label: &str) -> (s: String)
    ensures
        s@ == unified_diff(left@, right@, left_label@, right_label@),
{
    let diff = similar::TextDiff::from_lines(left, right);
    diff.unified_diff().header(left_label, right_label).to_string()
}

/// A text that may be missing, as an empty one.
pub open spec fn or_empty(o: Option<Seq<char>>) -> Seq<char> {
    match o {
        Some(text) => text,
        None => Seq::empty(),
    }
}

/// What is told of the difference between two states of a file; the times of the two are
/// shown by given texts.
pub open spec fn diff_report_text(
    color: bool,
    relative: Seq<char>,
    label: Seq<char>,
    left: Option<Seq<char>>,
    right: Option<Seq<char>>,
    first: Seq<char>,
    second: Seq<char>,
) -> Seq<char> {
    if left is None && right is None {
        callout_text(
            color,
            "WARN"@,
            relative + " did not exist at either "@ + first + " or "@ + second,
            Tone::Warning,
        )
    } else if left == right {
        title_text(color, "Diff"@, relative) + "\n"@ + callout_text(
            color,
            "OK"@,
            "No content differences between "@ + first + " and "@ + second,
            Tone::Success,
        )
    } else {
        title_text(color, "Diff"@, relative + " ("@ + label + ")"@) + "\n"@ + diff_text(
            color,
            unified_diff(
                or_empty(left),
                or_empty(right),
                relative + " @ "@ + first,
                relative + " @ "@ + second,
            ),
        )
    }
}

/// What is told of the difference between two states of a file; the times of the two are
/// shown by given texts.
pub fn diff_report_with(
    ui: &Ui,
    relative: &str,
    label: &str,
    left: &Option<String>,
    right: &Option<String>,
    first: &str,
    second: &str,
) -> (s: String)
    ensures
        s@ == diff_report_text(
            ui.colored(),
            relative@,
            label@,
            opt_text(*left),
            opt_text(*right),
            first@,
            second@,
        ),
{
    if left.is_none() && right.is_none() {
        let mut m = concat3(relative, " did not exist at either ", first);
        m.append(" or ");
        m.append(second);
        return ui.warning(m.as_str());
    }
    let same = match (left, right) {
        (Some(a), Some(b)) => same_text(a.as_str(), b.as_str()),
        _ => false,
    };
    if same {
        let mut m = concat3("No content differences between ", first, " and ");
        m.append(second);
        let mut s = ui.title("Diff", relative);
        s.append("\n");
        s.append(ui.success(m.as_str()).as_str());
        return s;
    }
    proof {
        reveal_strlit("");
        assert(""@ =~= Seq::<char>::empty());
    }
    let left_text: &str = match left {
        Some(text) => text.as_str(),
        None => "",
    };
    let right_text: &str = match right {
        Some(text) => text.as_str(),
        None => "",
    };
    let left_label = concat3(relative, " @ ", first);
    let right_label = concat3(relative, " @ ", second);
    let diff = write_unified_diff(
        left_text,
        right_text,
        left_label.as_str(),
        right_label.as_str(),
    );
    let mut context = concat3(relative, " (", label);
    context.append(")");
    let mut s = ui.title("Diff", context.as_str());
    s.append("\n");
    s.append(ui.render_diff(diff.as_str()).as_str());
    s
}

fn read_state(
    store: &TimelineStore,
    context_id: Option<i64>,
    relative: &str,
    at_ms: i64,
) -> (res: Result<Option<String>, StoreError>)
    requires
        store.wf(),
    ensures
        ({
            let expected = match context_id {
                Some(id) => state_at(store.tables(), relative@, at_ms, id),
                None => Ok::<Option<Seq<char>>, StoreError>(None),
            };
            match res {
                Ok(state) => expected == Ok::<Option<Seq<char>>, StoreError>(opt_text(state)),
                Err(e) => expected == Err::<Option<Seq<char>>, StoreError>(e),
            }
        }),
{
    match context_id {
        Some(id) => store.file_state_at(relative, at_ms, id),
        None => Ok(None),
    }
}

/// Whether a text tells the difference between two states of a file, showing their times.
pub open spec fn shows_diff(
    s: Seq<char>,
    color: bool,
    relative: Seq<char>,
    label: Seq<char>,
    before: Option<Seq<char>>,
    after: Option<Seq<char>>,
    first_ms: i64,
    second_ms: i64,
) -> bool {
    exists|first: Seq<char>, second: Seq<char>|
        shows_time(first, first_ms) && shows_time(second, second_ms) && s
            == #[trigger] diff_report_text(color, relative, label, before, after, first, second)
}

/// What is told of the difference between the states of a file at two times.
pub fn diff_report(
    ui: &Ui,
    store: &TimelineStore,
    relative: &str,
    context: &RuntimeContext,
    first_ms: i64,
    second_ms: i64,
) -> (res: Result<String, StoreError>)
    requires
        store.wf(),
        is_showable(first_ms),
        is_showable(second_ms),
    ensures
        ({
            let t = store.tables();
            let left = state_in(t, context@.fingerprint, relative@, first_ms);
            let right = state_in(t, context@.fingerprint, relative@, second_ms);
            match res {
                Ok(s) => {
                    &&& left matches Ok(before)
                    &&& right matches Ok(after)
                    &&& shows_diff(
                        s@,
                        ui.colored(),
                        relative@,
                        context_label(context@),
                        before,
                        after,
                        first_ms,
                        second_ms,
                    )
                },
                Err(e) => if left is Err {
                    e == left->Err_0
                } else {
                    right is Err && e == right->Err_0
                },
            }
        }),
{
    let id = store.resolve_context_id(context);
    let left = match read_state(store, id, relative, first_ms) {
        Ok(state) => state,
        Err(e) => {
            return Err(e);
        },
    };
    let right = match read_state(store, id, relative, second_ms) {
        Ok(state) => state,
        Err(e) => {
            return Err(e);
        },
    };
    let first = format_exact_and_human(first_ms);
    let second = format_exact_and_human(second_ms);
    let label = context.display_label();
    assert(label@ == context_label(context@));
    let s = diff_report_with(
        ui,
        relative,
        label.as_str(),
        &left,
        &right,
        first.as_str(),
        second.as_str(),
    );
    Ok(s)
}

// ---------------------------------------------------------------------------
// Restore
// ---------------------------------------------------------------------------

/// What is told of a file that was brought back.
pub open spec fn restored_file_text(color: bool, action: ActionView, when: Seq<char>) -> Seq<char> {
    let word = match action {
        ActionView::Write { .. } => "Restored"@,
        ActionView::Remove { .. } => "Removed"@,
    };
    callout_text(
        color,
        "OK"@,
        word + " "@ + action_path(action) + " at "@ + when,
        Tone::Success,
    )
}

/// What is told of a file that was brought back; the time is shown by a given text.
pub fn restored_file_report_with(ui: &Ui, action: &RestoreAction, when: &str) -> (s: String)
    ensures
        s@ == restored_file_text(ui.colored(), action@, when@),
{
    let mut m = match action {
        RestoreAction::Write { .. } => "Restored".to_owned(),
        RestoreAction::Remove { .. } => "Removed".to_owned(),
    };
    m.append(" ");
    m.append(action.path());
    m.append(" at ");
    m.append(when);
    ui.success(m.as_str())
}

/// What is told of a file that was brought back to a time.
pub fn restored_file_report(ui: &Ui, action: &RestoreAction, target_ms: i64) -> (s: String)
    requires
        is_showable(target_ms),
    ensures
        exists|when: Seq<char>|
            shows_time(when, target_ms) && s@ == #[trigger] restored_file_text(
                ui.colored(),
                action@,
                when,
            ),
{
    let when = format_exact_and_human(target_ms);
    restored_file_report_with(ui, action, when.as_str())
}

/// The counts of a restore under a badge.
pub open spec fn restore_counts_text(
    color: bool,
    badge: Seq<char>,
    written: nat,
    removed: nat,
) -> Seq<char> {
    key_values_text(
        color,
        seq![
            ("Result"@, badge),
            ("Files written"@, decimal(written)),
            ("Files removed"@, decimal(removed)),
        ],
    )
}

fn restore_counts(ui: &Ui, badge: String, summary: ProjectRestoreSummary) -> (s: String)
    ensures
        s@ == restore_counts_text(
            ui.colored(),
            badge@,
            summary.restored_files as nat,
            summary.removed_files as nat,
        ),
{
    let ghost shown = badge@;
    let mut rows: Vec<(&str, String)> = Vec::new();
    rows.push(("Result", badge));
    rows.push(("Files written", decimal_text(summary.restored_files as u64)));
    rows.push(("Files removed", decimal_text(summary.removed_files as u64)));
    assert(row_views(rows@) =~= seq![
        ("Result"@, shown),
        ("Files written"@, decimal(summary.restored_files as nat)),
        ("Files removed"@, decimal(summary.removed_files as nat)),
    ]);
    ui.key_values(&rows)
}

/// What is told of a project that was brought back.
pub open spec fn restored_project_text(
    color: bool,
    summary: ProjectRestoreSummary,
    when: Seq<char>,
) -> Seq<char> {
    title_text(color, "Restore Project"@, when) + "\n"@ + restore_counts_text(
        color,
        painted(color, "["@ + "DONE"@ + "]"@, Tone::Success),
        summary.restored_files as nat,
        summary.removed_files as nat,
    )
}

/// What is told of a project that was brought back; the time is shown by a given text.
pub fn restored_project_report_with(
    ui: &Ui,
    summary: ProjectRestoreSummary,
    when: &str,
) -> (s: String)
    ensures
        s@ == restored_project_text(ui.colored(), summary, when@),
{
    let mut s = ui.title("Restore Project", when);
    s.append("\n");
    s.append(restore_counts(ui, ui.badge("DONE", BadgeTone::Success), summary).as_str());
    s
}

/// What is told of a project that was brought back to a time.
pub fn restored_project_report(
    ui: &Ui,
    summary: ProjectRestoreSummary,
    target_ms: i64,
) -> (s: String)
    requires
        is_showable(target_ms),
    ensures
        exists|when: Seq<char>|
            shows_time(when, target_ms) && s@ == #[trigger] restored_project_text(
                ui.colored(),
                summary,
                when,
            ),
{
    let when = format_exact_and_human(target_ms);
    restored_project_report_with(ui, summary, when.as_str())
}

/// One row of a preview.
pub open spec fn preview_row(root: Seq<char>, action: ActionView) -> Seq<Cell> {
    match action {
        ActionView::Write { path, content } => seq![
            Cell { raw: "WRITE"@, align: Align::Left, tone: Some(Tone::Success) },
            plain_cell(shown_path(root, path)),
            right_cell(size_text((byte_len(content) as u64) as nat)),
        ],
        ActionView::Remove { path } => seq![
            Cell { raw: "REMOVE"@, align: Align::Left, tone: Some(Tone::Danger) },
            plain_cell(shown_path(root, path)),
            right_cell("-"@),
        ],
    }
}

/// What is told of a restore that is not carried out.
pub open spec fn preview_text(
    color: bool,
    title: Seq<char>,
    root: Seq<char>,
    actions: Seq<ActionView>,
    when: Seq<char>,
) -> Seq<char> {
    title_text(color, title, when) + "\n"@ + restore_counts_text(
        color,
        painted(color, "["@ + "DRY RUN"@ + "]"@, Tone::Info),
        writes(actions),
        removals(actions),
    ) + "\n"@ + (if actions.len() == 0 {
        painted(color, "No tracked files matched the requested restore."@, Tone::Muted)
    } else {
        table_text(
            color,
            seq!["Action"@, "Path"@, "Size"@],
            actions.map_values(|a: ActionView| preview_row(root, a)),
        )
    })
}

/// One row of a preview.
fn make_preview_row(root: &str, action: &RestoreAction) -> (row: Vec<TableCell>)
    ensures
        cells(row@) == preview_row(root@, action@),
        row@.len() == 3,
{
    let action_cell = match action {
        RestoreAction::Write { .. } => TableCell::plain(action.label()).success(),
        RestoreAction::Remove { .. } => TableCell::plain(action.label()).danger(),
    };
    let size = match action.size_bytes() {
        Some(n) => human_bytes(n as u64),
        None => "-".to_owned(),
    };
    let mut row: Vec<TableCell> = Vec::new();
    row.push(action_cell);
    row.push(TableCell::plain(display_restore_path(root, action.path()).as_str()));
    row.push(TableCell::right(size.as_str()));
    assert(cells(row@) =~= preview_row(root@, action@));
    row
}

/// What is told of a restore that is not carried out; the time is shown by a given text.
pub fn restore_preview_with(
    ui: &Ui,
    title: &str,
    root: &str,
    plan: &RestorePlan,
    when: &str,
) -> (s: String)
    ensures
        s@ == preview_text(ui.colored(), title@, root@, action_views(plan.actions@), when@),
{
    let ghost all = action_views(plan.actions@);
    let mut s = ui.title(title, when);
    s.append("\n");
    let summary = plan.summary();
    s.append(restore_counts(ui, ui.badge("DRY RUN", BadgeTone::Info), summary).as_str());
    s.append("\n");
    if plan.actions.len() == 0 {
        s.append(ui.muted("No tracked files matched the requested restore.").as_str());
        return s;
    }
    let ghost expected = all.map_values(|a: ActionView| preview_row(root@, a));
    let mut rows: Vec<Vec<TableCell>> = Vec::new();
    let mut i: usize = 0;
    while i < plan.actions.len()
        invariant
            i <= plan.actions@.len(),
            all == action_views(plan.actions@),
            expected == all.map_values(|a: ActionView| preview_row(root@, a)),
            cell_rows(rows@) == expected.take(i as int),
            forall|r: int| 0 <= r < rows@.len() ==> (#[trigger] rows@[r])@.len() == 3,
        decreases plan.actions@.len() - i,
    {
        let ghost before = cell_rows(rows@);
        let row = make_preview_row(root, &plan.actions[i]);
        let ghost view = cells(row@);
        rows.push(row);
        proof {
            assert(all[i as int] == plan.actions@[i as int]@);
            assert(cell_rows(rows@) =~= before.push(view));
            assert(expected.take(i + 1) =~= expected.take(i as int).push(expected[i as int]));
        }
        i += 1;
    }
    assert(expected.take(i as int) =~= expected);
    let mut headers: Vec<&str> = Vec::new();
    headers.push("Action");
    headers.push("Path");
    headers.push("Size");
    assert(header_views(headers@) =~= seq!["Action"@, "Path"@, "Size"@]);
    s.append(ui.table(&headers, &rows).as_str());
    s
}

/// What is told of a restore to a time that is not carried out.
pub fn restore_preview(
    ui: &Ui,
    title: &str,
    root: &str,
    target_ms: i64,
    plan: &RestorePlan,
) -> (s: String)
    requires
        is_showable(target_ms),
    ensures
        exists|when: Seq<char>|
            shows_time(when, target_ms) && s@ == #[trigger] preview_text(
                ui.colored(),
                title@,
                root@,
                action_views(plan.actions@),
                when,
            ),
{
    let when = format_exact_and_human(target_ms);
    restore_preview_with(ui, title, root, plan, when.as_str())
}

// ---------------------------------------------------------------------------
// Status and prune
// ---------------------------------------------------------------------------

/// A text, or a dash where there is none.
pub open spec fn text_or_dash(o: Option<Seq<char>>) -> Seq<char> {
    match o {
        Some(text) => text,
        None => "-"@,
    }
}

fn or_dash_text(o: Option<String>) -> (s: String)
    ensures
        s@ == text_or_dash(opt_text(o)),
{
    match o {
        Some(text) => text,
        None => "-".to_owned(),
    }
}

/// The badge of the watcher.
pub open spec fn watcher_badge(color: bool, status: StatusSummary) -> Seq<char> {
    if status.watcher.active {
        painted(color, "["@ + "ACTIVE"@ + "]"@, Tone::Success)
    } else if status.watcher.pid is Some {
        painted(color, "["@ + "STALE"@ + "]"@, Tone::Warning)
    } else {
        painted(color, "["@ + "IDLE"@ + "]"@, Tone::Danger)
    }
}

/// What is told of a Git worktree in a status.
pub open spec fn git_status_rows(git: GitContextView) -> Seq<(Seq<char>, Seq<char>)> {
    seq![
        ("Branch"@, text_or_dash(git.branch_name)),
        ("HEAD"@, text_or_dash(short_head_of(git))),
        (
            "Detached"@,
            if git.detached_head {
                "yes"@
            } else {
                "no"@
            },
        ),
    ]
}

/// The lines of a status; the times of the watcher are shown by given texts.
pub open spec fn status_rows(
    color: bool,
    status: StatusSummary,
    context: RuntimeView,
    config: TimelineConfig,
    storage_bytes: u64,
    started: Option<Seq<char>>,
    heartbeat: Option<Seq<char>>,
) -> Seq<(Seq<char>, Seq<char>)> {
    seq![
        ("Watcher"@, watcher_badge(color, status)),
        ("Started"@, text_or_dash(started)),
        ("Last heartbeat"@, text_or_dash(heartbeat)),
        (
            "Watcher pid"@,
            match status.watcher.pid {
                Some(pid) => signed_decimal(pid as int),
                None => "-"@,
            },
        ),
        ("Tracked files"@, signed_decimal(status.tracked_files as int)),
        ("Live files"@, signed_decimal(status.live_files as int)),
        ("Stored revisions"@, signed_decimal(status.revision_count as int)),
        (
            "Context kind"@,
            if context.git is Some {
                "git"@
            } else {
                "local"@
            },
        ),
        ("Context"@, context_label(context)),
    ] + (match context.git {
        Some(git) => git_status_rows(git),
        None => Seq::empty(),
    }) + seq![
        ("Retention"@, signed_decimal(config.retention_days as int) + " days"@),
        ("Debounce"@, decimal(config.debounce_ms as nat) + " ms"@),
        ("Max file size"@, size_text(config.max_file_size_bytes as nat)),
        ("Storage usage"@, size_text(storage_bytes as nat)),
    ]
}

/// What is told of a timeline; the times of the watcher are shown by given texts.
pub fn status_report_with(
    ui: &Ui,
    root: &str,
    status: StatusSummary,
    context: &RuntimeContext,
    config: TimelineConfig,
    storage_bytes: u64,
    started: Option<String>,
    heartbeat: Option<String>,
) -> (s: String)
    ensures
        s@ == title_text(ui.colored(), "Status"@, root@) + "\n"@ + key_values_text(
            ui.colored(),
            status_rows(
                ui.colored(),
                status,
                context@,
                config,
                storage_bytes,
                opt_text(started),
                opt_text(heartbeat),
            ),
        ),
{
    let ghost color = ui.colored();
    let ghost expected = status_rows(
        color,
        status,
        context@,
        config,
        storage_bytes,
        opt_text(started),
        opt_text(heartbeat),
    );
    let watcher_state = if status.watcher.active {
        ui.badge("ACTIVE", BadgeTone::Success)
    } else if status.watcher.pid.is_some() {
        ui.badge("STALE", BadgeTone::Warning)
    } else {
        ui.badge("IDLE", BadgeTone::Danger)
    };
    let pid = match status.watcher.pid {
        Some(pid) => signed_decimal_text(pid),
        None => "-".to_owned(),
    };
    let kind = if context.git().is_some() {
        "git".to_owned()
    } else {
        "local".to_owned()
    };
    let mut rows: Vec<(&str, String)> = Vec::new();
    rows.push(("Watcher", watcher_state));
    rows.push(("Started", or_dash_text(started)));
    rows.push(("Last heartbeat", or_dash_text(heartbeat)));
    rows.push(("Watcher pid", pid));
    rows.push(("Tracked files", signed_decimal_text(status.tracked_files)));
    rows.push(("Live files", signed_decimal_text(status.live_files)));
    rows.push(("Stored revisions", signed_decimal_text(status.revision_count)));
    rows.push(("Context kind", kind));
    rows.push(("Context", context.display_label()));
    match context.git() {
        Some(git) => {
            rows.push(("Branch", or_dash_text(git.branch_name.clone())));
            rows.push(("HEAD", or_dash_text(git.short_head())));
            rows.push(
                (
                    "Detached",
                    if git.detached_head {
                        "yes".to_owned()
                    } else {
                        "no".to_owned()
                    },
                ),
            );
        },
        None => {},
    }
    rows.push(
        ("Retention", concat(signed_decimal_text(config.retention_days).as_str(), " days")),
    );
    rows.push(("Debounce", concat(decimal_text(config.debounce_ms).as_str(), " ms")));
    rows.push(("Max file size", human_bytes(config.max_file_size_bytes)));
    rows.push(("Storage usage", human_bytes(storage_bytes)));
    assert(row_views(rows@) =~= expected);
    let mut s = ui.title("Status", root);
    s.append("\n");
    s.append(ui.key_values(&rows).as_str());
    s
}

/// Whether an optional text shows an optional time.
pub open spec fn shows_opt_time(s: Option<Seq<char>>, ms: Option<i64>) -> bool {
    match ms {
        Some(ms) => s matches Some(text) && shows_time(text, ms),
        None => s is None,
    }
}

fn show_opt(ms: Option<i64>) -> (res: Option<String>)
    requires
        ms matches Some(ms) ==> is_showable(ms),
    ensures
        shows_opt_time(opt_text(res), ms),
{
    match ms {
        Some(ms) => Some(format_exact_and_human(ms)),
        None => None,
    }
}

/// What is told of a timeline.
pub fn status_report(
    ui: &Ui,
    root: &str,
    status: StatusSummary,
    context: &RuntimeContext,
    config: TimelineConfig,
    storage_bytes: u64,
) -> (s: String)
    requires
        status.watcher.started_at_ms matches Some(ms) ==> is_showable(ms),
        status.watcher.heartbeat_ms matches Some(ms) ==> is_showable(ms),
    ensures
        exists|started: Option<Seq<char>>, heartbeat: Option<Seq<char>>|
            shows_opt_time(started, status.watcher.started_at_ms) && shows_opt_time(
                heartbeat,
                status.watcher.heartbeat_ms,
            ) && s@ == title_text(ui.colored(), "Status"@, root@) + "\n"@ + key_values_text(
                ui.colored(),
                #[trigger] status_rows(
                    ui.colored(),
                    status,
                    context@,
                    config,
                    storage_bytes,
                    started,
                    heartbeat,
                ),
            ),
{
    let started = show_opt(status.watcher.started_at_ms);
    let heartbeat = show_opt(status.watcher.heartbeat_ms);
    let ghost a = opt_text(started);
    let ghost b = opt_text(heartbeat);
    let s = status_report_with(
        ui,
        root,
        status,
        context,
        config,
        storage_bytes,
        started,
        heartbeat,
    );
    assert(shows_opt_time(a, status.watcher.started_at_ms));
    s
}

/// What is told of a pruning.
pub open spec fn pruned_text(color: bool, summary: PruneSummary) -> Seq<char> {
    callout_text(
        color,
        "OK"@,
        "Pruned history: removed "@ + decimal(summary.removed_revisions as nat)
            + " revisions, removed "@ + decimal(summary.removed_files as nat)
            + " file entries, kept "@ + decimal(summary.kept_anchors as nat) + " anchors"@,
        Tone::Success,
    )
}

/// What is told of a pruning.
pub fn prune_report(ui: &Ui, summary: PruneSummary) -> (s: String)
    ensures
        s@ == pruned_text(ui.colored(), summary),
{
    let mut m = "Pruned history: removed ".to_owned();
    m.append(decimal_text(summary.removed_revisions as u64).as_str());
    m.append(" revisions, removed ");
    m.append(decimal_text(summary.removed_files as u64).as_str());
    m.append(" file entries, kept ");
    m.append(decimal_text(summary.kept_anchors as u64).as_str());
    m.append(" anchors");
    ui.success(m.as_str())
}

} // verus!
