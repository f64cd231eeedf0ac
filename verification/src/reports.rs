//! What the reports of the commands show.
use vstd::prelude::*;
use vstd::string::*;

use crate::commands::{
    diff_report_text,
    git_status_rows,
    history_in,
    history_row,
    history_text,
    preview_row,
    preview_text,
    pruned_text,
    recent_in,
    recent_text,
    restore_counts_text,
    restored_file_text,
    restored_project_text,
    status_rows,
    unified_diff,
    watch_text,
};
use crate::config::TimelineConfig;
use crate::git::{git_label, RuntimeView};
use crate::path::shown_path;
use crate::recovery::law_actions_are_counted;
use crate::restore::{ActionView, ProjectRestoreSummary};
use crate::snapshot::ScanSummary;
use crate::store::listing::{history, recent, HistoryEntry, RecentView, StatusSummary};
use crate::store::lookup::lemma_context_id_of;
use crate::store::prune::PruneSummary;
use crate::store::rows::{EventType, StorageKind};
use crate::store::shown::law_rows_are_found;
use crate::store::tables::Tables;
use crate::text::{byte_len, decimal, joined, signed_decimal};
use crate::ui::{
    callout_text,
    diff_text,
    key_values_text,
    painted,
    size_text,
    table_text,
    title_text,
    Cell,
    Tone,
};
use crate::wording::{
    labels_value,
    law_callouts,
    law_labelled_values,
    law_tables_show_every_cell,
    line_holds,
    stands_in,
};

verus! {

// ---------------------------------------------------------------------------
// Diff
// ---------------------------------------------------------------------------

/// Whether a report is a titled diff from one text to another.
pub open spec fn is_diff(
    s: Seq<char>,
    color: bool,
    relative: Seq<char>,
    label: Seq<char>,
    before: Seq<char>,
    after: Seq<char>,
    first: Seq<char>,
    second: Seq<char>,
) -> bool {
    s == title_text(color, "Diff"@, relative + " ("@ + label + ")"@) + "\n"@ + diff_text(
        color,
        unified_diff(
            before,
            after,
            relative + " @ "@ + first,
            relative + " @ "@ + second,
        ),
    )
}

/// Where the contents differ, or the file was there at one of the times only, the report is
/// the diff from the first to the second, a missing one taken as empty. It says that there
/// are no differences where the file was there at both times with the same content, and that
/// there is no file where it was there at neither.
pub proof fn law_diffs_show_every_difference(
    color: bool,
    relative: Seq<char>,
    label: Seq<char>,
    before: Seq<char>,
    after: Seq<char>,
    first: Seq<char>,
    second: Seq<char>,
)
    ensures
        before != after ==> is_diff(
            diff_report_text(color, relative, label, Some(before), Some(after), first, second),
            color,
            relative,
            label,
            before,
            after,
            first,
            second,
        ),
        is_diff(
            diff_report_text(color, relative, label, Some(before), None, first, second),
            color,
            relative,
            label,
            before,
            Seq::empty(),
            first,
            second,
        ),
        is_diff(
            diff_report_text(color, relative, label, None, Some(after), first, second),
            color,
            relative,
            label,
            Seq::empty(),
            after,
            first,
            second,
        ),
        diff_report_text(color, relative, label, Some(before), Some(before), first, second)
            == title_text(color, "Diff"@, relative) + "\n"@ + callout_text(
            color,
            "OK"@,
            "No content differences between "@ + first + " and "@ + second,
            Tone::Success,
        ),
        diff_report_text(color, relative, label, None, None, first, second) == callout_text(
            color,
            "WARN"@,
            relative + " did not exist at either "@ + first + " or "@ + second,
            Tone::Warning,
        ),
{
}

// ---------------------------------------------------------------------------
// History and recent changes
// ---------------------------------------------------------------------------

/// The word for an event.
pub open spec fn event_word(event: EventType) -> Seq<char> {
    match event {
        EventType::Create => "CREATE"@,
        EventType::Modify => "MODIFY"@,
        EventType::Delete => "DELETE"@,
    }
}

/// The word for a way of storing.
pub open spec fn storage_word(kind: StorageKind) -> Seq<char> {
    match kind {
        StorageKind::Full => "FULL"@,
        StorageKind::Patch => "PATCH"@,
        StorageKind::Absent => "NONE"@,
    }
}

/// Whether a line shows an entry of a history.
pub open spec fn shows_entry(line: Seq<char>, entry: HistoryEntry, when: Seq<char>) -> bool {
    &&& stands_in(when, line)
    &&& stands_in(event_word(entry.event_type), line)
    &&& stands_in(storage_word(entry.storage_kind), line)
    &&& match entry.size_bytes {
        Some(n) => stands_in(size_text((n as u64) as nat), line),
        None => stands_in("-"@, line),
    }
}

/// A history that is not empty is shown under a title that names the file and the context,
/// one line to an entry, in order, with its time, event, size and storage.
pub proof fn law_histories_show_every_entry(
    color: bool,
    relative: Seq<char>,
    label: Seq<char>,
    entries: Seq<HistoryEntry>,
    whens: Seq<Seq<char>>,
)
    requires
        entries.len() > 0,
        whens.len() == entries.len(),
    ensures
        exists|lines: Seq<Seq<char>>|
            {
                &&& history_text(color, relative, label, entries, whens) == title_text(
                    color,
                    "History"@,
                    relative + " ("@ + label + ")"@,
                ) + "\n"@ + #[trigger] joined(lines, "\n"@)
                &&& lines.len() == entries.len() + 2
                &&& forall|i: int|
                    0 <= i < entries.len() ==> shows_entry(
                        lines[i + 2],
                        #[trigger] entries[i],
                        whens[i],
                    )
            },
{
    let headers = seq!["When"@, "Event"@, "Size"@, "Storage"@];
    let rows = Seq::new(entries.len(), |i: int| history_row(entries[i], whens[i]));
    law_tables_show_every_cell(color, headers, rows);
    let lines = choose|lines: Seq<Seq<char>>|
        {
            &&& table_text(color, headers, rows) == #[trigger] joined(lines, "\n"@)
            &&& lines.len() == rows.len() + 2
            &&& forall|c: int|
                0 <= c < headers.len() ==> stands_in(#[trigger] headers[c], lines[0])
            &&& forall|r: int|
                0 <= r < rows.len() ==> line_holds(lines[r + 2], #[trigger] rows[r])
        };
    assert(history_text(color, relative, label, entries, whens) == title_text(
        color,
        "History"@,
        relative + " ("@ + label + ")"@,
    ) + "\n"@ + joined(lines, "\n"@));
    assert forall|i: int| 0 <= i < entries.len() implies shows_entry(
        lines[i + 2],
        #[trigger] entries[i],
        whens[i],
    ) by {
        let row = rows[i];
        assert(line_holds(lines[i + 2], rows[i]));
        assert(stands_in(row[0].raw, lines[i + 2]));
        assert(stands_in(row[1].raw, lines[i + 2]));
        assert(stands_in(row[2].raw, lines[i + 2]));
        assert(stands_in(row[3].raw, lines[i + 2]));
    }
}

/// Whether a line shows a recent change.
pub open spec fn shows_change(line: Seq<char>, change: RecentView, when: Seq<char>) -> bool {
    &&& stands_in(when, line)
    &&& stands_in(event_word(change.event_type), line)
    &&& stands_in(change.path, line)
}

/// Recent changes are shown one line to a change, in order, with time, event and path.
pub proof fn law_recent_changes_show_every_change(
    color: bool,
    label: Seq<char>,
    limit: nat,
    changes: Seq<RecentView>,
    whens: Seq<Seq<char>>,
)
    requires
        changes.len() > 0,
        whens.len() == changes.len(),
    ensures
        exists|lines: Seq<Seq<char>>|
            {
                &&& recent_text(color, label, limit, changes, whens) == title_text(
                    color,
                    "Recent Changes"@,
                    label + " | limit "@ + decimal(limit),
                ) + "\n"@ + #[trigger] joined(lines, "\n"@)
                &&& lines.len() == changes.len() + 2
                &&& forall|i: int|
                    0 <= i < changes.len() ==> shows_change(
                        lines[i + 2],
                        #[trigger] changes[i],
                        whens[i],
                    )
            },
{
    let headers = seq!["When"@, "Event"@, "Path"@];
    let rows = Seq::new(
        changes.len(),
        |i: int|
            seq![
                crate::commands::plain_cell(whens[i]),
                crate::ui::event_cell_view(changes[i].event_type),
                crate::commands::plain_cell(changes[i].path),
            ],
    );
    law_tables_show_every_cell(color, headers, rows);
    let lines = choose|lines: Seq<Seq<char>>|
        {
            &&& table_text(color, headers, rows) == #[trigger] joined(lines, "\n"@)
            &&& lines.len() == rows.len() + 2
            &&& forall|c: int|
                0 <= c < headers.len() ==> stands_in(#[trigger] headers[c], lines[0])
            &&& forall|r: int|
                0 <= r < rows.len() ==> line_holds(lines[r + 2], #[trigger] rows[r])
        };
    assert(recent_text(color, label, limit, changes, whens) == title_text(
        color,
        "Recent Changes"@,
        label + " | limit "@ + decimal(limit),
    ) + "\n"@ + joined(lines, "\n"@));
    assert forall|i: int| 0 <= i < changes.len() implies shows_change(
        lines[i + 2],
        #[trigger] changes[i],
        whens[i],
    ) by {
        let row = rows[i];
        assert(line_holds(lines[i + 2], rows[i]));
        assert(stands_in(row[0].raw, lines[i + 2]));
        assert(stands_in(row[1].raw, lines[i + 2]));
        assert(stands_in(row[2].raw, lines[i + 2]));
    }
}

/// Where there is nothing to show, the report says so, and of what.
pub proof fn law_empty_lists_say_so(
    color: bool,
    relative: Seq<char>,
    label: Seq<char>,
    limit: nat,
)
    ensures
        history_text(color, relative, label, Seq::empty(), Seq::empty()) == callout_text(
            color,
            "WARN"@,
            "No history recorded for "@ + relative + " in "@ + label,
            Tone::Warning,
        ),
        recent_text(color, label, limit, Seq::empty(), Seq::empty()) == callout_text(
            color,
            "WARN"@,
            "No changes captured yet in "@ + label,
            Tone::Warning,
        ),
{
}

// ---------------------------------------------------------------------------
// Restore
// ---------------------------------------------------------------------------

/// Whether a line shows what is done to a file.
pub open spec fn shows_action(line: Seq<char>, root: Seq<char>, action: ActionView) -> bool {
    match action {
        ActionView::Write { path, content } => {
            &&& stands_in("WRITE"@, line)
            &&& stands_in(shown_path(root, path), line)
            &&& stands_in(size_text((byte_len(content) as u64) as nat), line)
        },
        ActionView::Remove { path } => {
            &&& stands_in("REMOVE"@, line)
            &&& stands_in(shown_path(root, path), line)
            &&& stands_in("-"@, line)
        },
    }
}

/// A preview of a restore counts what is written and what is removed, and shows every action
/// in a line of its own, in order.
pub proof fn law_previews_show_every_action(
    color: bool,
    title: Seq<char>,
    root: Seq<char>,
    actions: Seq<ActionView>,
    when: Seq<char>,
)
    requires
        actions.len() > 0,
    ensures
        exists|lines: Seq<Seq<char>>|
            {
                &&& preview_text(color, title, root, actions, when) == title_text(
                    color,
                    title,
                    when,
                ) + "\n"@ + restore_counts_text(
                    color,
                    painted(color, "["@ + "DRY RUN"@ + "]"@, Tone::Info),
                    actions.filter(|a: ActionView| a is Write).len(),
                    actions.filter(|a: ActionView| a is Remove).len(),
                ) + "\n"@ + #[trigger] joined(lines, "\n"@)
                &&& lines.len() == actions.len() + 2
                &&& forall|i: int|
                    0 <= i < actions.len() ==> shows_action(
                        lines[i + 2],
                        root,
                        #[trigger] actions[i],
                    )
            },
{
    let headers = seq!["Action"@, "Path"@, "Size"@];
    let rows = actions.map_values(|a: ActionView| preview_row(root, a));
    law_tables_show_every_cell(color, headers, rows);
    lemma_counted(actions);
    let lines = choose|lines: Seq<Seq<char>>|
        {
            &&& table_text(color, headers, rows) == #[trigger] joined(lines, "\n"@)
            &&& lines.len() == rows.len() + 2
            &&& forall|c: int|
                0 <= c < headers.len() ==> stands_in(#[trigger] headers[c], lines[0])
            &&& forall|r: int|
                0 <= r < rows.len() ==> line_holds(lines[r + 2], #[trigger] rows[r])
        };
    assert(preview_text(color, title, root, actions, when) == title_text(color, title, when)
        + "\n"@ + restore_counts_text(
        color,
        painted(color, "["@ + "DRY RUN"@ + "]"@, Tone::Info),
        actions.filter(|a: ActionView| a is Write).len(),
        actions.filter(|a: ActionView| a is Remove).len(),
    ) + "\n"@ + joined(lines, "\n"@));
    assert forall|i: int| 0 <= i < actions.len() implies shows_action(
        lines[i + 2],
        root,
        #[trigger] actions[i],
    ) by {
        let row = rows[i];
        assert(line_holds(lines[i + 2], rows[i]));
        assert(stands_in(row[0].raw, lines[i + 2]));
        assert(stands_in(row[1].raw, lines[i + 2]));
        assert(stands_in(row[2].raw, lines[i + 2]));
    }
}

proof fn lemma_counted(actions: Seq<ActionView>)
    ensures
        crate::restore::writes(actions) == actions.filter(|a: ActionView| a is Write).len(),
        crate::restore::removals(actions) == actions.filter(|a: ActionView| a is Remove).len(),
    decreases actions.len(),
{
    reveal(Seq::filter);
    if actions.len() > 0 {
        lemma_counted(actions.drop_last());
    }
}

/// Whether a line is a label and a value at its end.
pub open spec fn has_line(text: Seq<char>, label: Seq<char>, value: Seq<char>) -> bool {
    exists|line: Seq<char>| #[trigger] labels_value(line, label, value) && stands_in(line, text)
}

proof fn lemma_row_is_shown(color: bool, rows: Seq<(Seq<char>, Seq<char>)>, i: int)
    requires
        0 <= i < rows.len(),
    ensures
        has_line(key_values_text(color, rows), rows[i].0, rows[i].1),
{
    law_labelled_values(color, rows);
    let lines = choose|lines: Seq<Seq<char>>|
        {
            &&& key_values_text(color, rows) == #[trigger] joined(lines, "\n"@)
            &&& lines.len() == rows.len()
            &&& forall|k: int|
                0 <= k < rows.len() ==> labels_value(#[trigger] lines[k], rows[k].0, rows[k].1)
        };
    assert(labels_value(lines[i], rows[i].0, rows[i].1));
    crate::wording::law_joined_holds_every_piece(lines, "\n"@, i);
}

/// The report of a restored project gives how many files were written and removed.
pub proof fn law_restores_are_counted(
    color: bool,
    badge: Seq<char>,
    written: nat,
    removed: nat,
    summary: ProjectRestoreSummary,
    when: Seq<char>,
)
    ensures
        has_line(
            restore_counts_text(color, badge, written, removed),
            "Files written"@,
            decimal(written),
        ),
        has_line(
            restore_counts_text(color, badge, written, removed),
            "Files removed"@,
            decimal(removed),
        ),
        has_line(restore_counts_text(color, badge, written, removed), "Result"@, badge),
        restored_project_text(color, summary, when) == title_text(
            color,
            "Restore Project"@,
            when,
        ) + "\n"@ + restore_counts_text(
            color,
            painted(color, "["@ + "DONE"@ + "]"@, Tone::Success),
            summary.restored_files as nat,
            summary.removed_files as nat,
        ),
{
    let rows = seq![
        ("Result"@, badge),
        ("Files written"@, decimal(written)),
        ("Files removed"@, decimal(removed)),
    ];
    assert(restore_counts_text(color, badge, written, removed) == key_values_text(color, rows));
    lemma_row_is_shown(color, rows, 0);
    lemma_row_is_shown(color, rows, 1);
    lemma_row_is_shown(color, rows, 2);
}

/// The report of a restored file says whether it was written or removed, which one and for
/// what time.
pub proof fn law_restored_files_are_told(
    color: bool,
    path: Seq<char>,
    content: Seq<char>,
    when: Seq<char>,
)
    ensures
        restored_file_text(color, ActionView::Write { path, content }, when) == callout_text(
            color,
            "OK"@,
            "Restored"@ + " "@ + path + " at "@ + when,
            Tone::Success,
        ),
        restored_file_text(color, ActionView::Remove { path }, when) == callout_text(
            color,
            "OK"@,
            "Removed"@ + " "@ + path + " at "@ + when,
            Tone::Success,
        ),
{
}

/// The report of a pruning gives how many revisions and files were removed and how many
/// anchors were kept, in that order.
pub proof fn law_prunings_are_told(
    color: bool,
    summary: PruneSummary,
)
    ensures
        stands_in(
            " Pruned history: removed "@ + decimal(summary.removed_revisions as nat)
                + " revisions, removed "@ + decimal(summary.removed_files as nat)
                + " file entries, kept "@ + decimal(summary.kept_anchors as nat) + " anchors"@,
            pruned_text(color, summary),
        ),
{
    let message = "Pruned history: removed "@ + decimal(summary.removed_revisions as nat)
        + " revisions, removed "@ + decimal(summary.removed_files as nat) + " file entries, kept "@
        + decimal(summary.kept_anchors as nat) + " anchors"@;
    law_callouts(color, "OK"@, message, Tone::Success);
    reveal_strlit(" Pruned history: removed ");
    reveal_strlit("Pruned history: removed ");
    reveal_strlit(" ");
    assert(" Pruned history: removed "@ =~= " "@ + "Pruned history: removed "@);
    assert(" Pruned history: removed "@ + decimal(summary.removed_revisions as nat)
        + " revisions, removed "@ + decimal(summary.removed_files as nat) + " file entries, kept "@
        + decimal(summary.kept_anchors as nat) + " anchors"@ =~= " "@ + message);
}

// ---------------------------------------------------------------------------
// Watch and status
// ---------------------------------------------------------------------------

/// The report of a watcher that starts names the project and the process and gives how many
/// files the first scan found changed and gone.
pub proof fn law_watchers_introduce_themselves(
    color: bool,
    root: Seq<char>,
    pid: i64,
    scan: ScanSummary,
)
    ensures
        exists|body: Seq<char>|
            {
                &&& watch_text(color, root, pid, scan) == #[trigger] (title_text(
                    color,
                    "Watching"@,
                    root,
                ) + "\n"@ + body)
                &&& has_line(body, "Pid"@, signed_decimal(pid as int))
                &&& has_line(body, "Initial changes"@, decimal(scan.tracked_files as nat))
                &&& has_line(body, "Initial deletions"@, decimal(scan.deleted_files as nat))
            },
{
    let rows = seq![
        ("Watcher"@, painted(color, "["@ + "RUNNING"@ + "]"@, Tone::Success)),
        ("Pid"@, signed_decimal(pid as int)),
        ("Initial changes"@, decimal(scan.tracked_files as nat)),
        ("Initial deletions"@, decimal(scan.deleted_files as nat)),
    ];
    lemma_row_is_shown(color, rows, 1);
    lemma_row_is_shown(color, rows, 2);
    lemma_row_is_shown(color, rows, 3);
    let body = key_values_text(color, rows);
    assert(watch_text(color, root, pid, scan) == title_text(color, "Watching"@, root) + "\n"@
        + body);
}

/// The value that a row is labelled with, if there is one.
pub open spec fn has_row(
    rows: Seq<(Seq<char>, Seq<char>)>,
    label: Seq<char>,
    value: Seq<char>,
) -> bool {
    exists|i: int| 0 <= i < rows.len() && #[trigger] rows[i] == (label, value)
}

/// A status gives whether the watcher is at work, what it last did, how much is stored, the
/// context and the settings.
pub proof fn law_status_rows(
    color: bool,
    status: StatusSummary,
    context: RuntimeView,
    config: TimelineConfig,
    storage_bytes: u64,
    started: Option<Seq<char>>,
    heartbeat: Option<Seq<char>>,
)
    ensures
        ({
            let rows = status_rows(
                color,
                status,
                context,
                config,
                storage_bytes,
                started,
                heartbeat,
            );
            &&& rows.len() == (if context.git is Some {
                16int
            } else {
                13int
            })
            &&& status.watcher.active ==> has_row(
                rows,
                "Watcher"@,
                painted(color, "["@ + "ACTIVE"@ + "]"@, Tone::Success),
            )
            &&& !status.watcher.active && status.watcher.pid is Some ==> has_row(
                rows,
                "Watcher"@,
                painted(color, "["@ + "STALE"@ + "]"@, Tone::Warning),
            )
            &&& !status.watcher.active && status.watcher.pid is None ==> has_row(
                rows,
                "Watcher"@,
                painted(color, "["@ + "IDLE"@ + "]"@, Tone::Danger),
            )
            &&& started matches Some(s) ==> has_row(rows, "Started"@, s)
            &&& heartbeat matches Some(s) ==> has_row(rows, "Last heartbeat"@, s)
            &&& started is None ==> has_row(rows, "Started"@, "-"@)
            &&& heartbeat is None ==> has_row(rows, "Last heartbeat"@, "-"@)
            &&& status.watcher.pid matches Some(pid) ==> has_row(
                rows,
                "Watcher pid"@,
                signed_decimal(pid as int),
            )
            &&& has_row(rows, "Tracked files"@, signed_decimal(status.tracked_files as int))
            &&& has_row(rows, "Live files"@, signed_decimal(status.live_files as int))
            &&& has_row(rows, "Stored revisions"@, signed_decimal(status.revision_count as int))
            &&& context.git is None ==> has_row(rows, "Context kind"@, "local"@) && has_row(
                rows,
                "Context"@,
                "local timeline"@,
            )
            &&& context.git matches Some(git) ==> {
                &&& has_row(rows, "Context kind"@, "git"@)
                &&& has_row(rows, "Context"@, git_label(git))
                &&& git.branch_name matches Some(name) ==> has_row(rows, "Branch"@, name)
                &&& git.branch_name is None ==> has_row(rows, "Branch"@, "-"@)
                &&& git.head_commit matches Some(head) ==> has_row(
                    rows,
                    "HEAD"@,
                    if head.len() <= 12 {
                        head
                    } else {
                        head.take(12)
                    },
                )
                &&& has_row(
                    rows,
                    "Detached"@,
                    if git.detached_head {
                        "yes"@
                    } else {
                        "no"@
                    },
                )
            }
            &&& has_row(
                rows,
                "Retention"@,
                signed_decimal(config.retention_days as int) + " days"@,
            )
            &&& has_row(rows, "Debounce"@, decimal(config.debounce_ms as nat) + " ms"@)
            &&& has_row(rows, "Max file size"@, size_text(config.max_file_size_bytes as nat))
            &&& has_row(rows, "Storage usage"@, size_text(storage_bytes as nat))
        }),
{
    let rows = status_rows(color, status, context, config, storage_bytes, started, heartbeat);
    let n: int = match context.git {
        Some(_) => 12,
        None => 9,
    };
    assert(rows[0].0 == "Watcher"@);
    assert(rows[1].0 == "Started"@);
    assert(rows[2].0 == "Last heartbeat"@);
    assert(rows[3].0 == "Watcher pid"@);
    assert(rows[4].0 == "Tracked files"@);
    assert(rows[5].0 == "Live files"@);
    assert(rows[6].0 == "Stored revisions"@);
    assert(rows[7].0 == "Context kind"@);
    assert(rows[8].0 == "Context"@);
    if context.git is Some {
        assert(rows[9] == git_status_rows(context.git->Some_0)[0]);
        assert(rows[10] == git_status_rows(context.git->Some_0)[1]);
        assert(rows[11] == git_status_rows(context.git->Some_0)[2]);
    }
    assert(rows[n].0 == "Retention"@);
    assert(rows[n + 1].0 == "Debounce"@);
    assert(rows[n + 2].0 == "Max file size"@);
    assert(rows[n + 3].0 == "Storage usage"@);
}

/// Histories and recent changes are those of the context with the fingerprint of the project,
/// and there are none where no such context was ever noted.
pub proof fn law_reports_speak_of_one_context(
    t: Tables,
    i: int,
    fingerprint: Seq<char>,
    path: Seq<char>,
    limit: nat,
)
    ensures
        (forall|k: int|
            0 <= k < t.contexts.len() ==> (#[trigger] t.contexts[k]).record.fingerprint
                != fingerprint) ==> history_in(t, fingerprint, path).len() == 0 && recent_in(
            t,
            fingerprint,
            limit,
        ).len() == 0,
        t.keyed() && 0 <= i < t.contexts.len() && t.contexts[i].record.fingerprint == fingerprint
            ==> history_in(t, fingerprint, path) == history(t, path, t.contexts[i].id) && recent_in(
            t,
            fingerprint,
            limit,
        ) == recent(t, limit, t.contexts[i].id),
{
    lemma_context_id_of(t.contexts, fingerprint);
    if t.keyed() {
        law_rows_are_found(t, 0, path, fingerprint);
    }
}

// ---------------------------------------------------------------------------
// Columns of the reports
// ---------------------------------------------------------------------------

/// Whether the cells of a row hold these texts, in this order.
pub open spec fn reads(row: Seq<Cell>, texts: Seq<Seq<char>>) -> bool {
    &&& row.len() == texts.len()
    &&& forall|c: int| 0 <= c < row.len() ==> (#[trigger] row[c]).raw == texts[c]
}

/// A history is a table of times, events, sizes and kinds of storage.
pub proof fn law_columns_of_histories(
    color: bool,
    relative: Seq<char>,
    label: Seq<char>,
    entries: Seq<HistoryEntry>,
    whens: Seq<Seq<char>>,
)
    requires
        entries.len() > 0,
        whens.len() == entries.len(),
    ensures
        exists|rows: Seq<Seq<Cell>>|
            {
                &&& history_text(color, relative, label, entries, whens) == title_text(
                    color,
                    "History"@,
                    relative + " ("@ + label + ")"@,
                ) + "\n"@ + table_text(
                    color,
                    seq!["When"@, "Event"@, "Size"@, "Storage"@],
                    rows,
                )
                &&& #[trigger] rows.len() == entries.len()
                &&& forall|i: int|
                    0 <= i < rows.len() ==> reads(
                        #[trigger] rows[i],
                        seq![
                            whens[i],
                            event_word(entries[i].event_type),
                            match entries[i].size_bytes {
                                Some(n) => size_text((n as u64) as nat),
                                None => "-"@,
                            },
                            storage_word(entries[i].storage_kind),
                        ],
                    )
            },
{
    let rows = Seq::new(entries.len(), |i: int| history_row(entries[i], whens[i]));
    assert(history_text(color, relative, label, entries, whens) == title_text(
        color,
        "History"@,
        relative + " ("@ + label + ")"@,
    ) + "\n"@ + table_text(color, seq!["When"@, "Event"@, "Size"@, "Storage"@], rows));
}

/// Recent changes are a table of times, events and paths.
pub proof fn law_columns_of_recent_changes(
    color: bool,
    label: Seq<char>,
    limit: nat,
    changes: Seq<RecentView>,
    whens: Seq<Seq<char>>,
)
    requires
        changes.len() > 0,
        whens.len() == changes.len(),
    ensures
        exists|rows: Seq<Seq<Cell>>|
            {
                &&& recent_text(color, label, limit, changes, whens) == title_text(
                    color,
                    "Recent Changes"@,
                    label + " | limit "@ + decimal(limit),
                ) + "\n"@ + table_text(color, seq!["When"@, "Event"@, "Path"@], rows)
                &&& #[trigger] rows.len() == changes.len()
                &&& forall|i: int|
                    0 <= i < rows.len() ==> reads(
                        #[trigger] rows[i],
                        seq![whens[i], event_word(changes[i].event_type), changes[i].path],
                    )
            },
{
    let rows = Seq::new(
        changes.len(),
        |i: int|
            seq![
                crate::commands::plain_cell(whens[i]),
                crate::ui::event_cell_view(changes[i].event_type),
                crate::commands::plain_cell(changes[i].path),
            ],
    );
    assert(recent_text(color, label, limit, changes, whens) == title_text(
        color,
        "Recent Changes"@,
        label + " | limit "@ + decimal(limit),
    ) + "\n"@ + table_text(color, seq!["When"@, "Event"@, "Path"@], rows));
}

/// A preview that has anything to do shows, behind its counts, a table of actions, paths and
/// sizes.
pub proof fn law_columns_of_previews(
    color: bool,
    title: Seq<char>,
    root: Seq<char>,
    actions: Seq<ActionView>,
    when: Seq<char>,
)
    requires
        actions.len() > 0,
    ensures
        exists|rows: Seq<Seq<Cell>>|
            {
                &&& preview_text(color, title, root, actions, when) == title_text(
                    color,
                    title,
                    when,
                ) + "\n"@ + restore_counts_text(
                    color,
                    painted(color, "["@ + "DRY RUN"@ + "]"@, Tone::Info),
                    actions.filter(|a: ActionView| a is Write).len(),
                    actions.filter(|a: ActionView| a is Remove).len(),
                ) + "\n"@ + table_text(color, seq!["Action"@, "Path"@, "Size"@], rows)
                &&& #[trigger] rows.len() == actions.len()
                &&& forall|i: int|
                    0 <= i < rows.len() ==> reads(
                        #[trigger] rows[i],
                        match actions[i] {
                            ActionView::Write { path, content } => seq![
                                "WRITE"@,
                                shown_path(root, path),
                                size_text((byte_len(content) as u64) as nat),
                            ],
                            ActionView::Remove { path } => seq![
                                "REMOVE"@,
                                shown_path(root, path),
                                "-"@,
                            ],
                        },
                    )
            },
{
    law_actions_are_counted(actions);
    let rows = actions.map_values(|a: ActionView| preview_row(root, a));
    assert(preview_text(color, title, root, actions, when) == title_text(color, title, when)
        + "\n"@ + restore_counts_text(
        color,
        painted(color, "["@ + "DRY RUN"@ + "]"@, Tone::Info),
        actions.filter(|a: ActionView| a is Write).len(),
        actions.filter(|a: ActionView| a is Remove).len(),
    ) + "\n"@ + table_text(color, seq!["Action"@, "Path"@, "Size"@], rows));
}

} // verus!
