//! What each command tells.
use kairos::commands::{
    can_show_history, can_show_recent, diff_report, diff_report_with, history_report, history_report_with,
    prune_report, recent_report, recent_report_with, restore_preview, restore_preview_with,
    restored_file_report, restored_file_report_with, restored_project_report,
    restored_project_report_with, status_report, status_report_with, validate_limit, watch_report,
    CommandError,
};
use kairos::config::TimelineConfig;
use kairos::git::{GitContext, RuntimeContext};
use kairos::restore::{ProjectRestoreSummary, RestoreAction, RestorePlan};
use kairos::snapshot::ScanSummary;
use kairos::store::{PruneSummary, StatusSummary, StoredRows, TimelineStore, WatcherStatus};
use kairos::ui::Ui;

const ROOT: &str = "/work/project";

fn ui() -> Ui {
    Ui::new(false, false, &None)
}

fn local() -> RuntimeContext {
    RuntimeContext::local(ROOT.to_string())
}

fn branch() -> RuntimeContext {
    RuntimeContext::from_git(GitContext {
        worktree_root: ROOT.to_string(),
        common_git_dir: format!("{ROOT}/.git"),
        branch_name: Some("main".to_string()),
        head_commit: Some("0123456789abcdef".to_string()),
        detached_head: false,
    })
}

fn filled() -> (TimelineStore, i64) {
    let config = TimelineConfig::default();
    let mut store = match TimelineStore::open(ROOT.to_string(), config, StoredRows::empty()) {
        Ok(store) => store,
        Err(e) => panic!("{}", e.message()),
    };
    let id = store.ensure_context(&local(), 1_000).unwrap();
    store.record_text("a.rs", "one\ntwo\n", 1_000, id).unwrap();
    store.record_text("a.rs", "one\n2\n", 2_000, id).unwrap();
    store.record_delete("a.rs", 3_000, id).unwrap();
    (store, id)
}

fn whens(texts: &[&str]) -> Vec<String> {
    texts.iter().map(|text| text.to_string()).collect()
}

#[test]
fn a_watcher_says_what_it_found() {
    let scan = ScanSummary { tracked_files: 3, deleted_files: 1 };
    assert_eq!(
        watch_report(&ui(), "/p", 42, scan),
        "Watching: /p\n------------\nWatcher:           [RUNNING]\nPid:               42\n\
         Initial changes:   3\nInitial deletions: 1"
    );
}

#[test]
fn a_history_lists_its_revisions() {
    let (store, id) = filled();
    let entries = store.file_history("a.rs", id);
    assert_eq!(
        history_report_with(&ui(), "a.rs", "local timeline", &entries, &whens(&["t3", "t2", "t1"])),
        "History: a.rs (local timeline)\n------------------------------\n\
         When | Event  | Size | Storage\n-----+--------+------+--------\n\
         t3   | DELETE |    - | NONE   \nt2   | MODIFY |  6 B | PATCH  \n\
         t1   | CREATE |  8 B | FULL   "
    );
    assert!(can_show_history(&store, "a.rs", &local()));
    assert!(can_show_recent(&store, 20, &local()));
    let report = history_report(&ui(), &store, "a.rs", &local());
    assert!(report.starts_with("History: a.rs (local timeline)\n"));
    assert!(report.contains(" days ago) | CREATE |"));
    assert_eq!(
        history_report(&ui(), &store, "b.rs", &local()),
        "[WARN] No history recorded for b.rs in local timeline"
    );
    assert_eq!(
        history_report(&ui(), &store, "a.rs", &branch()),
        "[WARN] No history recorded for a.rs in main @ 0123456789ab"
    );
}

#[test]
fn times_too_far_back_cannot_be_shown() {
    let (mut store, id) = filled();
    store.record_text("old.rs", "x\n", i64::MIN, id).unwrap();
    assert!(!can_show_history(&store, "old.rs", &local()));
    assert!(can_show_history(&store, "a.rs", &local()));
    assert!(can_show_history(&store, "old.rs", &branch()));
    assert!(can_show_recent(&store, 3, &local()));
    assert!(!can_show_recent(&store, 4, &local()));
}

#[test]
fn recent_changes_are_listed_up_to_a_limit() {
    let (store, id) = filled();
    let changes = store.recent_changes(2, id);
    assert_eq!(
        recent_report_with(&ui(), "local timeline", 2, &changes, &whens(&["t3", "t2"])),
        "Recent Changes: local timeline | limit 2\n----------------------------------------\n\
         When | Event  | Path\n-----+--------+-----\nt3   | DELETE | a.rs\nt2   | MODIFY | a.rs"
    );
    let report = recent_report(&ui(), &store, 20, &local());
    assert_eq!(report.lines().count(), 7);
    assert_eq!(
        recent_report(&ui(), &store, 20, &branch()),
        "[WARN] No changes captured yet in main @ 0123456789ab"
    );
}

#[test]
fn no_changes_cannot_be_asked_for() {
    assert_eq!(validate_limit(1), Ok(()));
    assert_eq!(validate_limit(0), Err(CommandError::ZeroLimit));
    assert_eq!(CommandError::ZeroLimit.message(), "--limit must be greater than zero");
}

#[test]
fn differences_are_shown_as_a_unified_diff() {
    let text = |s: &str| Some(s.to_string());
    let report = |left: Option<String>, right: Option<String>| {
        diff_report_with(&ui(), "a.rs", "local timeline", &left, &right, "t1", "t2")
    };
    assert_eq!(report(None, None), "[WARN] a.rs did not exist at either t1 or t2");
    assert_eq!(
        report(text("x\n"), text("x\n")),
        "Diff: a.rs\n------------\n[OK] No content differences between t1 and t2"
    );
    assert_eq!(
        report(text("one\ntwo\n"), text("one\n2\n")),
        "Diff: a.rs (local timeline)\n---------------------------\n--- a.rs @ t1\n+++ a.rs @ t2\n\
         @@ -1,2 +1,2 @@\n one\n-two\n+2"
    );
    assert_eq!(
        report(None, text("x\n")),
        "Diff: a.rs (local timeline)\n---------------------------\n--- a.rs @ t1\n+++ a.rs @ t2\n\
         @@ -0,0 +1 @@\n+x"
    );
}

#[test]
fn differences_are_those_between_two_times() {
    let (store, _) = filled();
    let report = diff_report(&ui(), &store, "a.rs", &local(), 1_500, 2_500).unwrap();
    assert!(report.starts_with("Diff: a.rs (local timeline)\n"));
    assert!(report.ends_with("\n one\n-two\n+2"));
    let report = diff_report(&ui(), &store, "a.rs", &local(), 1_500, 1_600).unwrap();
    assert!(report.contains("[OK] No content differences between "));
    let report = diff_report(&ui(), &store, "a.rs", &branch(), 1_500, 2_500).unwrap();
    assert!(report.starts_with("[WARN] a.rs did not exist at either "));
}

#[test]
fn restores_say_what_they_did() {
    let write = RestoreAction::Write { path: "/p/a".to_string(), content: "x".to_string() };
    let remove = RestoreAction::Remove { path: "/p/b".to_string() };
    assert_eq!(restored_file_report_with(&ui(), &write, "t"), "[OK] Restored /p/a at t");
    assert_eq!(restored_file_report_with(&ui(), &remove, "t"), "[OK] Removed /p/b at t");
    assert!(restored_file_report(&ui(), &write, 0).starts_with("[OK] Restored /p/a at 19"));
    let summary = ProjectRestoreSummary { restored_files: 2, removed_files: 1 };
    assert_eq!(
        restored_project_report_with(&ui(), summary, "t"),
        "Restore Project: t\n------------------\nResult:        [DONE]\nFiles written: 2\n\
         Files removed: 1"
    );
    assert!(restored_project_report(&ui(), summary, 0).contains("\nFiles written: 2\n"));
}

#[test]
fn previews_list_what_would_be_done() {
    let plan = RestorePlan {
        actions: vec![
            RestoreAction::Write { path: "/p/src/a".to_string(), content: "xyz".to_string() },
            RestoreAction::Remove { path: "/p/b".to_string() },
        ],
    };
    assert_eq!(
        restore_preview_with(&ui(), "Dry", "/p", &plan, "t"),
        "Dry: t\n------------\nResult:        [DRY RUN]\nFiles written: 1\nFiles removed: 1\n\
         Action | Path  | Size\n-------+-------+-----\nWRITE  | src/a |  3 B\nREMOVE | b     |    -"
    );
    assert_eq!(
        restore_preview_with(&ui(), "Dry", "/p", &RestorePlan::default(), "t"),
        "Dry: t\n------------\nResult:        [DRY RUN]\nFiles written: 0\nFiles removed: 0\n\
         No tracked files matched the requested restore."
    );
    assert!(restore_preview(&ui(), "Dry", "/p", 0, &plan).contains("WRITE  | src/a"));
}

fn status(watcher: WatcherStatus) -> StatusSummary {
    StatusSummary { watcher, tracked_files: 5, live_files: 4, revision_count: 9 }
}

#[test]
fn a_status_tells_of_watcher_context_and_settings() {
    let config = TimelineConfig::default();
    let active = WatcherStatus {
        active: true,
        pid: Some(7),
        started_at_ms: Some(1),
        heartbeat_ms: Some(2),
    };
    assert_eq!(
        status_report_with(
            &ui(),
            "/p",
            status(active),
            &branch(),
            config,
            2_048,
            Some("t1".to_string()),
            Some("t2".to_string()),
        ),
        "Status: /p\n------------\nWatcher:          [ACTIVE]\nStarted:          t1\n\
         Last heartbeat:   t2\nWatcher pid:      7\nTracked files:    5\nLive files:       4\n\
         Stored revisions: 9\nContext kind:     git\nContext:          main @ 0123456789ab\n\
         Branch:           main\nHEAD:             0123456789ab\nDetached:         no\n\
         Retention:        7 days\nDebounce:         1200 ms\nMax file size:    1.0 MB\n\
         Storage usage:    2.0 KB"
    );
    let idle = status_report(&ui(), "/p", status(WatcherStatus::default()), &local(), config, 0);
    assert!(idle.contains("Watcher:          [IDLE]\nStarted:          -\n"));
    assert!(idle.contains("Context kind:     local\nContext:          local timeline\nRetention:"));
    let stale = WatcherStatus { active: false, ..active };
    let report = status_report(&ui(), "/p", status(stale), &local(), config, 0);
    assert!(report.contains("Watcher:          [STALE]\n"));
}

#[test]
fn a_pruning_says_what_it_removed() {
    let summary = PruneSummary { removed_revisions: 3, removed_files: 0, kept_anchors: 2 };
    assert_eq!(
        prune_report(&ui(), summary),
        "[OK] Pruned history: removed 3 revisions, removed 0 file entries, kept 2 anchors"
    );
}
