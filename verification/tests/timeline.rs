//! The timeline store.
use kairos::config::{TimelineConfig, DAY_MS};
use kairos::delta::DeltaError;
use kairos::git::{GitContext, RuntimeContext};
use kairos::store::listing::fits;
use kairos::store::rows::{
    ContextRecord, ContextRow, FileRow, RevisionRow, RowChange, UnknownName,
};
use kairos::store::{EventType, StorageKind, StoreError, StoredRows, TimelineStore};

const ROOT: &str = "/work/project";

fn opened(rows: StoredRows, config: TimelineConfig) -> TimelineStore {
    match TimelineStore::open(ROOT.to_string(), config, rows) {
        Ok(store) => store,
        Err(e) => panic!("{}", e.message()),
    }
}

fn empty_store() -> TimelineStore {
    opened(StoredRows::empty(), TimelineConfig::default())
}

fn local() -> RuntimeContext {
    RuntimeContext::local(ROOT.to_string())
}

fn branch(name: &str) -> RuntimeContext {
    RuntimeContext::from_git(GitContext {
        worktree_root: ROOT.to_string(),
        common_git_dir: format!("{ROOT}/.git"),
        branch_name: Some(name.to_string()),
        head_commit: Some("0123456789abcdef".to_string()),
        detached_head: false,
    })
}

fn revisions(changes: &[RowChange]) -> Vec<RevisionRow> {
    changes
        .iter()
        .filter_map(|change| match change {
            RowChange::InsertRevision(row) => Some(row.clone()),
            _ => None,
        })
        .collect()
}

fn full(id: i64, ordinal: i64, at_ms: i64, text: &str) -> RevisionRow {
    RevisionRow {
        id,
        file_id: 1,
        ordinal,
        recorded_at_ms: at_ms,
        event_type: EventType::Modify,
        storage_kind: StorageKind::Full,
        base_revision_id: None,
        content_hash: Some("x".to_string()),
        size_bytes: Some(text.len() as i64),
        payload: Some(text.as_bytes().to_vec()),
    }
}

fn rows_with(revisions: Vec<RevisionRow>) -> StoredRows {
    let last = revisions.iter().map(|r| r.id).max().unwrap_or(0);
    StoredRows {
        contexts: vec![ContextRow {
            id: 1,
            record: ContextRecord::from_runtime(&local()),
            first_seen_ms: 0,
            last_seen_ms: 0,
        }],
        files: vec![FileRow {
            id: 1,
            context_id: 1,
            path: "a.rs".to_string(),
            first_seen_ms: 0,
            last_seen_ms: 0,
        }],
        revisions,
        watcher: None,
        last_context_id: 1,
        last_file_id: 1,
        last_revision_id: last,
    }
}

#[test]
fn first_revision_is_a_full_copy_with_its_digest() {
    let mut store = empty_store();
    let id = store.ensure_context(&local(), 1_000).unwrap();
    assert_eq!(id, 1);
    assert_eq!(store.record_text("a.rs", "v1\n", 1_000, id), Ok(true));
    let rows = revisions(&store.take_changes());
    assert_eq!(rows.len(), 1);
    assert_eq!(rows[0].id, 1);
    assert_eq!(rows[0].ordinal, 1);
    assert_eq!(rows[0].event_type, EventType::Create);
    assert_eq!(rows[0].storage_kind, StorageKind::Full);
    assert_eq!(rows[0].base_revision_id, None);
    assert_eq!(
        rows[0].content_hash.as_deref(),
        Some("2d27fbdf4e8ca207afbfa388ca9172fbcc6c70e534af2476b3b704f87debadcf")
    );
    assert_eq!(rows[0].size_bytes, Some(3));
    assert_eq!(rows[0].payload, Some(b"v1\n".to_vec()));
    assert!(store.take_changes().is_empty());
}

#[test]
fn later_revisions_are_patches_on_the_one_before() {
    let mut store = empty_store();
    let id = store.ensure_context(&local(), 1_000).unwrap();
    store.record_text("a.rs", "v1\n", 1_000, id).unwrap();
    store.take_changes();
    assert_eq!(store.record_text("a.rs", "v2\n", 2_000, id), Ok(true));
    let rows = revisions(&store.take_changes());
    assert_eq!(rows[0].event_type, EventType::Modify);
    assert_eq!(rows[0].storage_kind, StorageKind::Patch);
    assert_eq!(rows[0].base_revision_id, Some(1));
    assert_eq!(
        rows[0].payload,
        Some(b"--- original\n+++ modified\n@@ -1 +1 @@\n-v1\n+v2\n".to_vec())
    );
    assert_eq!(store.reconstruct_revision_content(2), Ok("v2\n".to_string()));
}

#[test]
fn every_twentieth_revision_is_a_full_copy() {
    let mut store = empty_store();
    let id = store.ensure_context(&local(), 0).unwrap();
    for n in 1..=45_i64 {
        store.record_text("a.rs", &format!("v{n}\n"), n, id).unwrap();
    }
    let kinds: Vec<(i64, StorageKind)> =
        revisions(&store.take_changes()).iter().map(|r| (r.ordinal, r.storage_kind)).collect();
    assert_eq!(kinds.len(), 45);
    for (ordinal, kind) in kinds {
        let is_full = ordinal == 1 || ordinal % 20 == 0;
        assert_eq!(kind == StorageKind::Full, is_full, "{ordinal}");
    }
    for n in 1..=45_i64 {
        assert_eq!(store.file_state_at("a.rs", n, id), Ok(Some(format!("v{n}\n"))));
    }
}

#[test]
fn the_same_text_is_not_recorded_twice() {
    let mut store = empty_store();
    let id = store.ensure_context(&local(), 1_000).unwrap();
    assert_eq!(store.record_text("a.rs", "v1\n", 1_000, id), Ok(true));
    assert_eq!(store.record_text("a.rs", "v1\n", 2_000, id), Ok(false));
    assert_eq!(store.file_history("a.rs", id).len(), 1);
    assert_eq!(store.record_delete("a.rs", 3_000, id), Ok(true));
    assert_eq!(store.record_delete("a.rs", 4_000, id), Ok(false));
    assert_eq!(store.record_text("a.rs", "v1\n", 5_000, id), Ok(true));
    let events: Vec<EventType> =
        store.file_history("a.rs", id).iter().map(|e| e.event_type).collect();
    assert_eq!(events, vec![EventType::Create, EventType::Delete, EventType::Create]);
}

#[test]
fn recording_keeps_earlier_and_other_states() {
    let mut store = empty_store();
    let here = store.ensure_context(&branch("main"), 1_000).unwrap();
    let there = store.ensure_context(&branch("feature"), 1_000).unwrap();
    store.record_text("a.rs", "a1\n", 1_000, here).unwrap();
    store.record_text("b.rs", "b1\n", 1_000, here).unwrap();
    store.record_text("a.rs", "other\n", 1_000, there).unwrap();
    store.record_text("a.rs", "a2\n", 2_000, here).unwrap();
    store.record_delete("a.rs", 3_000, here).unwrap();
    assert_eq!(store.file_state_at("a.rs", 999, here), Ok(None));
    assert_eq!(store.file_state_at("a.rs", 1_999, here), Ok(Some("a1\n".to_string())));
    assert_eq!(store.file_state_at("a.rs", 2_999, here), Ok(Some("a2\n".to_string())));
    assert_eq!(store.file_state_at("a.rs", 3_000, here), Ok(None));
    assert_eq!(store.file_state_at("b.rs", 9_999, here), Ok(Some("b1\n".to_string())));
    assert_eq!(store.file_state_at("a.rs", 9_999, there), Ok(Some("other\n".to_string())));
    assert_eq!(store.file_state_at("c.rs", 9_999, here), Ok(None));
}

#[test]
fn contexts_keep_their_numbers() {
    let mut store = empty_store();
    assert_eq!(store.resolve_context_id(&branch("main")), None);
    let main = store.ensure_context(&branch("main"), 1_000).unwrap();
    let feature = store.ensure_context(&branch("feature"), 2_000).unwrap();
    let outside = store.ensure_context(&local(), 3_000).unwrap();
    assert_eq!(store.ensure_context(&branch("main"), 4_000), Ok(main));
    assert_eq!(store.resolve_context_id(&branch("main")), Some(main));
    assert_eq!(store.resolve_context_id(&branch("feature")), Some(feature));
    assert_eq!(store.resolve_context_id(&local()), Some(outside));
    assert_eq!((main, feature, outside), (1, 2, 3));
}

#[test]
fn histories_and_changes_are_newest_first() {
    let mut store = empty_store();
    let id = store.ensure_context(&local(), 0).unwrap();
    store.record_text("a.rs", "1\n", 10, id).unwrap();
    store.record_text("b.rs", "3\n", 20, id).unwrap();
    store.record_text("a.rs", "22\n", 20, id).unwrap();
    store.record_delete("a.rs", 30, id).unwrap();
    let history: Vec<(i64, EventType, Option<i64>, StorageKind)> = store
        .file_history("a.rs", id)
        .iter()
        .map(|e| (e.recorded_at_ms, e.event_type, e.size_bytes, e.storage_kind))
        .collect();
    assert_eq!(
        history,
        vec![
            (30, EventType::Delete, None, StorageKind::Absent),
            (20, EventType::Modify, Some(3), StorageKind::Patch),
            (10, EventType::Create, Some(2), StorageKind::Full),
        ]
    );
    let changes: Vec<(i64, String)> =
        store.recent_changes(10, id).into_iter().map(|c| (c.recorded_at_ms, c.path)).collect();
    assert_eq!(
        changes,
        vec![
            (30, "a.rs".to_string()),
            (20, "a.rs".to_string()),
            (20, "b.rs".to_string()),
            (10, "a.rs".to_string()),
        ]
    );
    assert_eq!(store.recent_changes(2, id).len(), 2);
    assert!(store.file_history("none.rs", id).is_empty());
    assert!(store.recent_changes(10, id + 1).is_empty());
}

#[test]
fn a_clock_that_goes_back_uses_up_the_next_number() {
    let mut store = empty_store();
    let id = store.ensure_context(&local(), 0).unwrap();
    store.record_text("a.rs", "1\n", 30, id).unwrap();
    store.record_text("a.rs", "2\n", 10, id).unwrap();
    assert_eq!(store.file_state_at("a.rs", 10, id), Ok(Some("2\n".to_string())));
    assert_eq!(store.file_state_at("a.rs", 30, id), Ok(Some("1\n".to_string())));
    assert_eq!(store.record_delete("a.rs", 20, id), Err(StoreError::OrdinalTaken));
    assert_eq!(store.file_history("a.rs", id).len(), 2);
}

#[test]
fn live_paths_are_those_that_do_not_end_deleted() {
    let mut store = empty_store();
    let id = store.ensure_context(&local(), 0).unwrap();
    for path in ["src/b.rs", "src/a.rs", "docs/x.md", "src2/c.rs"] {
        store.record_text(path, "x\n", 1, id).unwrap();
    }
    store.record_delete("src/b.rs", 2, id).unwrap();
    assert_eq!(store.list_all_paths(id), vec!["docs/x.md", "src/a.rs", "src/b.rs", "src2/c.rs"]);
    assert_eq!(store.list_current_live_paths(id), vec!["docs/x.md", "src/a.rs", "src2/c.rs"]);
    assert_eq!(
        store.list_current_live_paths_under("src/", id),
        Ok(vec!["src/a.rs".to_string()])
    );
    assert_eq!(store.record_delete_prefix("src/", 3, id), Ok(1));
    assert_eq!(store.record_delete_prefix("src/", 4, id), Ok(0));
    assert_eq!(store.list_current_live_paths(id), vec!["docs/x.md", "src2/c.rs"]);
}

#[test]
fn patterns_have_wildcards_and_ignore_ascii_case() {
    assert!(fits("src/%", "src/a/b.rs"));
    assert!(fits("SRC/%", "src/a"));
    assert!(!fits("src/%", "src"));
    assert!(fits("a_c", "abc"));
    assert!(!fits("a_c", "ac"));
    assert!(fits("%", ""));
    assert!(fits("%b%", "abc"));
    assert!(!fits("\u{e9}", "\u{c9}"));
    assert!(fits("a%", "abc\0def"));
    assert!(fits("abc", "abc\0def"));
    assert!(fits("abc\0%", "ABC"));
    assert!(!fits("abc\0%", "abcd"));
    assert!(fits("\u{fffe}", "\u{ffff}"));
    assert!(fits("%\u{fffd}", "a\u{ffff}"));
    assert!(!fits("\u{fffe}", "\u{fffc}"));
}

#[test]
fn a_status_counts_files_and_revisions() {
    let mut store = empty_store();
    let status = store.status(5_000);
    assert_eq!(status.revision_count, 0);
    assert_eq!(status.watcher.pid, None);
    assert!(!status.watcher.active);

    let id = store.ensure_context(&local(), 0).unwrap();
    store.record_text("a.rs", "1\n", 1, id).unwrap();
    store.record_text("b.rs", "1\n", 1, id).unwrap();
    store.record_delete("b.rs", 2, id).unwrap();
    store.touch_watcher(77, 1_000, 4_000, ROOT);
    let status = store.status(14_000);
    assert_eq!(status.tracked_files, 2);
    assert_eq!(status.live_files, 1);
    assert_eq!(status.revision_count, 3);
    assert_eq!(status.watcher.pid, Some(77));
    assert_eq!(status.watcher.started_at_ms, Some(1_000));
    assert_eq!(status.watcher.heartbeat_ms, Some(4_000));
    assert!(status.watcher.active);
    assert!(!store.status(14_001).watcher.active);
}

#[test]
fn the_watcher_row_is_replaced() {
    let mut store = empty_store();
    store.touch_watcher(1, 10, 10, ROOT);
    store.touch_watcher(2, 20, 30, "/elsewhere");
    let changes = store.take_changes();
    assert_eq!(changes.len(), 2);
    match &changes[1] {
        RowChange::SetWatcher(row) => {
            assert_eq!(row.pid, 2);
            assert_eq!(row.root_path, "/elsewhere");
            assert_eq!(row.started_at_ms, 20);
            assert_eq!(row.heartbeat_ms, 30);
        }
        other => panic!("{other:?}"),
    }
}

#[test]
fn changes_rebuild_the_rows() {
    let mut store = empty_store();
    let id = store.ensure_context(&local(), 0).unwrap();
    store.record_text("a.rs", "1\n", 1, id).unwrap();
    store.record_text("a.rs", "2\n", 2, id).unwrap();
    store.touch_watcher(9, 1, 2, ROOT);
    let mut rows = StoredRows::empty();
    for change in store.take_changes() {
        match change {
            RowChange::InsertContext(row) => {
                rows.last_context_id = row.id;
                rows.contexts.push(row);
            }
            RowChange::SkipContextNumber => rows.last_context_id += 1,
            RowChange::SkipFileNumber => rows.last_file_id += 1,
            RowChange::InsertFile(row) => {
                rows.last_file_id = row.id;
                rows.files.push(row);
            }
            RowChange::InsertRevision(row) => {
                rows.last_revision_id = row.id;
                rows.revisions.push(row);
            }
            RowChange::UpdateContext(row) => {
                let at = rows.contexts.iter().position(|r| r.id == row.id).unwrap();
                rows.contexts[at] = row;
            }
            RowChange::UpdateFile(row) => {
                let at = rows.files.iter().position(|r| r.id == row.id).unwrap();
                rows.files[at] = row;
            }
            RowChange::UpdateRevision(row) => {
                let at = rows.revisions.iter().position(|r| r.id == row.id).unwrap();
                rows.revisions[at] = row;
            }
            RowChange::DeleteRevision(number) => rows.revisions.retain(|r| r.id != number),
            RowChange::SetWatcher(row) => rows.watcher = Some(row),
        }
    }
    assert!(rows.hold());
    let again = opened(rows, TimelineConfig::default());
    assert_eq!(again.file_state_at("a.rs", 2, id), Ok(Some("2\n".to_string())));
    assert_eq!(again.file_state_at("a.rs", 1, id), Ok(Some("1\n".to_string())));
    assert_eq!(again.status(3).watcher.pid, Some(9));
    assert_eq!(again.project_root(), ROOT);
    assert_eq!(again.config().retention_days, 7);
}

#[test]
fn pruning_rewrites_what_rested_on_removed_revisions() {
    let mut store = empty_store();
    let id = store.ensure_context(&local(), 0).unwrap();
    for day in 0..10_i64 {
        store.record_text("a.rs", &format!("day {day}\n"), day * DAY_MS, id).unwrap();
    }
    store.record_text("b.rs", "old\n", 0, id).unwrap();
    store.record_delete("b.rs", DAY_MS, id).unwrap();
    store.take_changes();
    // The cutoff is at day two: it and what follows stay.
    let summary = store.prune(9 * DAY_MS).unwrap();
    assert_eq!(summary.removed_revisions, 3);
    assert_eq!(summary.removed_files, 0);
    assert_eq!(summary.kept_anchors, 2);
    for day in 2..10_i64 {
        assert_eq!(store.file_state_at("a.rs", day * DAY_MS, id), Ok(Some(format!("day {day}\n"))));
    }
    assert_eq!(store.file_state_at("a.rs", DAY_MS, id), Ok(None));
    assert_eq!(store.file_state_at("b.rs", 9 * DAY_MS, id), Ok(None));
    assert!(store.take_changes().iter().any(|change| matches!(
        change,
        RowChange::UpdateRevision(row) if row.storage_kind == StorageKind::Full && row.base_revision_id.is_none()
    )));
    let again = store.prune(9 * DAY_MS).unwrap();
    assert_eq!(again.removed_revisions, 0);
}

#[test]
fn pruning_can_lose_a_base_where_the_clock_went_back() {
    let patch = |from: &str, to: &str| kairos::delta::create_patch(from, to);
    let mut late = full(2, 2, 100, "p\n");
    late.storage_kind = StorageKind::Patch;
    late.base_revision_id = Some(1);
    late.payload = Some(patch("b\n", "p\n"));
    let mut early = full(3, 3, 50, "a\n");
    early.storage_kind = StorageKind::Patch;
    early.base_revision_id = Some(2);
    early.payload = Some(patch("p\n", "a\n"));
    let config = TimelineConfig { retention_days: 0, ..TimelineConfig::default() };
    let mut store = opened(rows_with(vec![full(1, 1, 10, "b\n"), late, early]), config);
    assert_eq!(store.file_state_at("a.rs", 100, 1), Ok(Some("p\n".to_string())));
    store.prune(60).unwrap();
    assert!(store.file_state_at("a.rs", 100, 1).is_err());
}

#[test]
fn contradicting_rows_are_refused() {
    let refused = |rows: StoredRows| {
        assert!(!rows.hold());
        match TimelineStore::open(ROOT.to_string(), TimelineConfig::default(), rows) {
            Ok(_) => panic!("the rows were accepted"),
            Err(e) => assert_eq!(e, StoreError::Corrupted),
        }
    };
    assert!(rows_with(vec![full(1, 1, 1, "x")]).hold());
    refused(rows_with(vec![full(2, 1, 1, "x"), full(1, 1, 1, "y")]));
    let mut beyond = rows_with(vec![full(3, 1, 1, "x")]);
    beyond.last_revision_id = 2;
    refused(beyond);
    refused(rows_with(vec![full(1, 1, 1, "x"), full(2, 1, 1, "y")]));
    let mut twice = rows_with(vec![]);
    let mut again = twice.files[0].clone();
    again.id = 2;
    twice.files.push(again);
    twice.last_file_id = 2;
    refused(twice);
    let mut twice = rows_with(vec![]);
    let mut again = twice.contexts[0].clone();
    again.id = 2;
    twice.contexts.push(again);
    twice.last_context_id = 2;
    refused(twice);
}

#[test]
fn rows_need_no_order_among_numbers_ordinals_and_bases() {
    let mut first = full(1, 5, 1, "a\n");
    first.storage_kind = StorageKind::Patch;
    first.base_revision_id = Some(2);
    first.payload = Some(kairos::delta::create_patch("b\n", "a\n"));
    let rows = rows_with(vec![first, full(2, -3, 2, "b\n")]);
    assert!(rows.hold());
    let store = opened(rows, TimelineConfig::default());
    assert_eq!(store.reconstruct_revision_content(1), Ok("a\n".to_string()));
    assert_eq!(store.file_state_at("a.rs", 1, 1), Ok(Some("a\n".to_string())));
    assert_eq!(store.file_state_at("a.rs", 2, 1), Ok(Some("b\n".to_string())));
}

#[test]
fn a_chain_that_leads_back_to_itself_has_no_content() {
    let on = |id: i64, base: i64| RevisionRow {
        storage_kind: StorageKind::Patch,
        base_revision_id: Some(base),
        ..full(id, id, id, "x")
    };
    let store = opened(rows_with(vec![on(1, 2), on(2, 1)]), TimelineConfig::default());
    assert_eq!(store.reconstruct_revision_content(1), Err(StoreError::BaseLoop(1)));
    let itself = opened(rows_with(vec![on(1, 1)]), TimelineConfig::default());
    assert_eq!(itself.reconstruct_revision_content(1), Err(StoreError::BaseLoop(1)));
}

#[test]
fn bases_may_lie_in_other_files() {
    let mut rows = rows_with(vec![full(1, 1, 1, "a\n")]);
    rows.files.push(FileRow { id: 2, path: "b.rs".to_string(), ..rows.files[0].clone() });
    rows.last_file_id = 2;
    rows.revisions.push(RevisionRow {
        file_id: 2,
        storage_kind: StorageKind::Patch,
        base_revision_id: Some(1),
        payload: Some(kairos::delta::create_patch("a\n", "b\n")),
        ..full(2, 1, 2, "b\n")
    });
    rows.last_revision_id = 2;
    let config = TimelineConfig { retention_days: 0, ..TimelineConfig::default() };
    let mut store = opened(rows, config);
    assert_eq!(store.file_state_at("b.rs", 2, 1), Ok(Some("b\n".to_string())));
    let summary = store.prune(5).unwrap();
    assert_eq!((summary.removed_revisions, summary.kept_anchors), (0, 2));
    assert_eq!(store.file_state_at("b.rs", 2, 1), Ok(Some("b\n".to_string())));
}

#[test]
fn a_base_that_another_file_lets_go_stops_a_pruning() {
    let mut rows = rows_with(vec![full(1, 1, 1, "a\n")]);
    rows.files.push(FileRow { id: 2, path: "b.rs".to_string(), ..rows.files[0].clone() });
    rows.last_file_id = 2;
    rows.revisions.push(RevisionRow {
        file_id: 2,
        storage_kind: StorageKind::Patch,
        base_revision_id: Some(1),
        payload: Some(kairos::delta::create_patch("a\n", "b\n")),
        ..full(2, 1, 2, "b\n")
    });
    rows.revisions.push(full(3, 2, 3, "c\n"));
    rows.last_revision_id = 3;
    let config = TimelineConfig { retention_days: 0, ..TimelineConfig::default() };
    let mut store = opened(rows, config);
    assert_eq!(store.prune(5), Err(StoreError::MissingBase(2)));
    assert!(store.take_changes().is_empty());
    assert_eq!(store.file_state_at("a.rs", 1, 1), Ok(Some("a\n".to_string())));
    assert_eq!(store.file_state_at("b.rs", 2, 1), Ok(Some("b\n".to_string())));
    let summary = store.prune(2).unwrap();
    assert_eq!((summary.removed_revisions, summary.kept_anchors), (0, 2));
    assert_eq!(store.file_state_at("b.rs", 2, 1), Ok(Some("b\n".to_string())));
    let summary = store.prune(5).unwrap();
    assert_eq!((summary.removed_revisions, summary.kept_anchors), (1, 2));
    assert_eq!(store.file_state_at("a.rs", 5, 1), Ok(Some("c\n".to_string())));
}

#[test]
fn a_new_file_asks_for_no_interval() {
    let config = TimelineConfig { full_snapshot_interval: 0, ..TimelineConfig::default() };
    let mut store = opened(StoredRows::empty(), config);
    let id = store.ensure_context(&local(), 0).unwrap();
    assert_eq!(store.record_text("a.rs", "1\n", 1, id), Ok(true));
    assert_eq!(store.record_text("a.rs", "1\n", 2, id), Ok(false));
    assert_eq!(store.file_state_at("a.rs", 2, id), Ok(Some("1\n".to_string())));
}

#[test]
fn a_known_text_is_read_back_whatever_the_other_rows_hold() {
    let broken = RevisionRow { payload: None, ..full(1, 1, 1, "x") };
    let mut store = opened(rows_with(vec![broken]), TimelineConfig::default());
    assert_eq!(store.record_text("b.rs", "1\n", 5, 1), Ok(true));
    assert_eq!(store.file_state_at("b.rs", 5, 1), Ok(Some("1\n".to_string())));
    assert_eq!(store.file_state_at("a.rs", 5, 1), Err(StoreError::MissingFullPayload(1)));
}

#[test]
fn each_broken_revision_says_what_is_missing() {
    let read = |row: RevisionRow| {
        opened(rows_with(vec![row]), TimelineConfig::default()).reconstruct_revision_content(1)
    };
    let base = full(1, 1, 1, "x");
    assert_eq!(
        read(RevisionRow { payload: None, ..base.clone() }),
        Err(StoreError::MissingFullPayload(1))
    );
    assert_eq!(
        read(RevisionRow { payload: Some(vec![0xff]), ..base.clone() }),
        Err(StoreError::InvalidUtf8(1))
    );
    assert_eq!(
        read(RevisionRow { event_type: EventType::Delete, ..base.clone() }),
        Err(StoreError::DeletedRevision(1))
    );
    assert_eq!(
        read(RevisionRow { storage_kind: StorageKind::Patch, ..base.clone() }),
        Err(StoreError::MissingBase(1))
    );
    let store = opened(rows_with(vec![base.clone()]), TimelineConfig::default());
    assert_eq!(store.reconstruct_revision_content(8), Err(StoreError::MissingRevision(8)));

    let on_base = |payload: Option<Vec<u8>>| {
        let row = RevisionRow {
            id: 2,
            ordinal: 2,
            storage_kind: StorageKind::Patch,
            base_revision_id: Some(1),
            payload,
            ..base.clone()
        };
        opened(rows_with(vec![base.clone(), row]), TimelineConfig::default())
            .reconstruct_revision_content(2)
    };
    assert_eq!(on_base(None), Err(StoreError::MissingPatchPayload(2)));
    assert_eq!(on_base(Some(vec![0xff])), Err(StoreError::Delta(DeltaError::NotUtf8)));
    assert_eq!(on_base(Some(b"@@ x\n".to_vec())), Err(StoreError::Delta(DeltaError::NotAPatch)));
    let wrong = kairos::delta::create_patch("other\n", "more\n");
    assert_eq!(on_base(Some(wrong)), Err(StoreError::Delta(DeltaError::DoesNotApply)));
}

#[test]
fn recording_needs_a_known_context_and_a_free_number() {
    let mut store = empty_store();
    assert_eq!(store.record_text("a.rs", "x", 1, 4), Err(StoreError::UnknownContext(4)));
    assert!(store.take_changes().is_empty());

    let mut used_up = rows_with(vec![]);
    used_up.last_revision_id = i64::MAX;
    let mut store = opened(used_up, TimelineConfig::default());
    assert_eq!(store.record_text("a.rs", "x", 1, 1), Err(StoreError::NumbersExhausted));

    let last = rows_with(vec![full(1, i64::MAX, 1, "x")]);
    let mut store = opened(last, TimelineConfig::default());
    assert_eq!(store.record_text("a.rs", "y", 2, 1), Err(StoreError::NumbersExhausted));
    assert_eq!(store.record_delete("a.rs", 2, 1), Err(StoreError::NumbersExhausted));
    assert_eq!(store.file_state_at("a.rs", 2, 1), Ok(Some("x".to_string())));
}

#[test]
fn store_errors_say_what_is_wrong() {
    let messages = [
        (StoreError::Corrupted, "timeline metadata appears corrupted"),
        (StoreError::MissingRevision(3), "missing revision 3"),
        (StoreError::DeletedRevision(3), "cannot reconstruct deleted revision 3"),
        (StoreError::MissingBase(3), "revision chain for 3 is missing a base"),
        (StoreError::BaseLoop(3), "revision chain for 3 leads back to itself"),
        (StoreError::MissingBaseRevision(3), "missing base revision 3"),
        (StoreError::MissingFullPayload(3), "revision 3 is missing a full payload"),
        (StoreError::MissingPatchPayload(3), "revision 3 is missing a patch payload"),
        (StoreError::InvalidUtf8(3), "revision 3 contains invalid UTF-8"),
        (StoreError::NoContent(3), "revision 3 has no reconstructable content"),
        (StoreError::UnsupportedVersion(9), "unsupported timeline schema version 9"),
        (StoreError::Delta(DeltaError::NotUtf8), "patch payload is not valid UTF-8"),
    ];
    for (error, message) in messages {
        assert_eq!(error.message(), message);
    }
}

#[test]
fn stored_names_are_read_back() {
    for event in [EventType::Create, EventType::Modify, EventType::Delete] {
        assert!(matches!(EventType::from_str(event.as_str()), Ok(read) if read == event));
    }
    for kind in [StorageKind::Full, StorageKind::Patch, StorageKind::Absent] {
        assert!(matches!(StorageKind::from_str(kind.as_str()), Ok(read) if read == kind));
    }
    assert_eq!(StorageKind::Absent.as_str(), "none");
    match EventType::from_str("rename") {
        Err(e) => assert_eq!(e.message(), "unknown event type `rename`"),
        Ok(event) => panic!("{event:?}"),
    }
    match StorageKind::from_str("zip") {
        Err(UnknownName::Storage(name)) => assert_eq!(name, "zip"),
        other => panic!("{other:?}"),
    }
}

#[test]
fn stored_contexts_name_their_kind() {
    let record = ContextRecord::from_runtime(&branch("main"));
    assert_eq!(record.kind_str(), "git");
    assert_eq!(record.branch_name.as_deref(), Some("main"));
    let record = ContextRecord::from_runtime(&local());
    assert_eq!(record.kind_str(), "local");
    assert_eq!(record.fingerprint, "local|root=/work/project");
    assert_eq!(record.branch_name, None);
}

#[test]
fn rows_are_told_apart() {
    let mut store = empty_store();
    let id = store.ensure_context(&local(), 0).unwrap();
    for n in 0..5_i64 {
        store.ensure_context(&local(), n).unwrap();
        store.record_text("a.rs", &format!("{n}\n"), n, id).unwrap();
        store.record_delete("a.rs", n, id).unwrap();
    }
    let changes = store.take_changes();
    let contexts = changes.iter().filter(|c| matches!(c, RowChange::InsertContext(_))).count();
    let files = changes.iter().filter(|c| matches!(c, RowChange::InsertFile(_))).count();
    assert_eq!((contexts, files), (1, 1));
    let ordinals: Vec<i64> = revisions(&changes).iter().map(|r| r.ordinal).collect();
    assert_eq!(ordinals, vec![1, 2, 3, 4, 5, 6, 7, 8, 9, 10]);
    let history = store.file_history("a.rs", id);
    assert_eq!(history.len(), 10);
    for row in revisions(&changes) {
        match row.event_type {
            EventType::Delete => {
                assert_eq!(row.storage_kind, StorageKind::Absent);
                assert!(row.payload.is_none() && row.content_hash.is_none());
                assert!(row.size_bytes.is_none() && row.base_revision_id.is_none());
            }
            _ => {
                assert!(row.payload.is_some() && row.content_hash.is_some());
                assert_eq!(row.size_bytes, Some(2));
                assert_eq!(
                    row.base_revision_id.is_some(),
                    row.storage_kind == StorageKind::Patch
                );
            }
        }
    }
}

#[test]
fn contexts_and_heartbeats_change_no_state() {
    let mut store = empty_store();
    let id = store.ensure_context(&local(), 0).unwrap();
    store.record_text("a.rs", "1\n", 1, id).unwrap();
    store.ensure_context(&branch("main"), 2).unwrap();
    store.ensure_context(&local(), 3).unwrap();
    store.touch_watcher(4, 4, 4, ROOT);
    assert_eq!(store.file_state_at("a.rs", 9, id), Ok(Some("1\n".to_string())));
    assert_eq!(store.file_history("a.rs", id).len(), 1);
}

#[test]
fn a_watcher_keeps_its_start_while_it_is_the_same_process() {
    let mut store = empty_store();
    store.touch_watcher(7, 100, 100, ROOT);
    store.touch_watcher(7, 555, 600, ROOT);
    let watcher = store.status(600).watcher;
    assert_eq!((watcher.started_at_ms, watcher.heartbeat_ms), (Some(100), Some(600)));
    store.touch_watcher(8, 700, 800, ROOT);
    assert_eq!(store.status(800).watcher.started_at_ms, Some(700));
}

#[test]
fn rows_may_name_what_is_not_there() {
    let mut of_no_file = full(1, 1, 1, "x");
    of_no_file.file_id = 9;
    let mut rows = rows_with(vec![of_no_file]);
    assert!(rows.hold());
    rows.files[0].context_id = 5;
    let mut store = opened(rows, TimelineConfig::default());
    assert_eq!(store.list_all_paths(5), vec!["a.rs"]);
    assert_eq!(store.status(0).revision_count, 1);
    assert!(store.recent_changes(10, 5).is_empty());
    // A file that is known needs no context, a new one does.
    assert_eq!(store.record_text("a.rs", "1\n", 3, 5), Ok(true));
    assert_eq!(store.file_state_at("a.rs", 3, 5), Ok(Some("1\n".to_string())));
    assert_eq!(store.record_text("b.rs", "1\n", 3, 5), Err(StoreError::UnknownContext(5)));
    // What belongs to no file is not pruned.
    store.prune(100 * DAY_MS).unwrap();
    assert_eq!(store.status(0).revision_count, 2);

    let patch = kairos::delta::create_patch("a\n", "b\n");
    let of_no_base = RevisionRow {
        storage_kind: StorageKind::Patch,
        base_revision_id: Some(7),
        payload: Some(patch),
        ..full(1, 1, 1, "b\n")
    };
    let store = opened(rows_with(vec![of_no_base]), TimelineConfig::default());
    assert_eq!(store.file_state_at("a.rs", 1, 1), Err(StoreError::MissingBaseRevision(7)));
}

#[test]
fn a_new_file_takes_over_revisions_of_its_number() {
    let mut waiting = full(1, 4, 1, "old\n");
    waiting.file_id = 2;
    let mut store = opened(rows_with(vec![waiting]), TimelineConfig::default());
    assert_eq!(store.record_text("b.rs", "new\n", 5, 1), Ok(true));
    let rows = revisions(&store.take_changes());
    assert_eq!((rows[0].file_id, rows[0].ordinal), (2, 5));
    assert_eq!(rows[0].event_type, EventType::Modify);
    assert_eq!(store.file_state_at("b.rs", 1, 1), Ok(Some("old\n".to_string())));
    assert_eq!(store.file_state_at("b.rs", 5, 1), Ok(Some("new\n".to_string())));
}

#[test]
fn seeing_a_row_again_uses_up_a_number() {
    let mut store = empty_store();
    assert_eq!(store.ensure_context(&local(), 0), Ok(1));
    assert_eq!(store.ensure_context(&local(), 1), Ok(1));
    assert_eq!(store.ensure_context(&branch("main"), 2), Ok(3));
    store.take_changes();
    store.record_text("a.rs", "1\n", 1, 1).unwrap();
    store.record_text("a.rs", "1\n", 2, 1).unwrap();
    store.record_delete("a.rs", 3, 1).unwrap();
    store.record_text("b.rs", "1\n", 4, 1).unwrap();
    let numbers: Vec<i64> = store
        .take_changes()
        .iter()
        .filter_map(|change| match change {
            RowChange::InsertFile(row) => Some(row.id),
            _ => None,
        })
        .collect();
    assert_eq!(numbers, vec![1, 3]);

    let mut used_up = rows_with(vec![full(1, 1, 1, "x")]);
    used_up.last_file_id = i64::MAX;
    used_up.last_context_id = i64::MAX;
    let mut store = opened(used_up, TimelineConfig::default());
    assert_eq!(store.ensure_context(&local(), 1), Err(StoreError::NumbersExhausted));
    assert_eq!(store.record_text("a.rs", "y", 2, 1), Err(StoreError::NumbersExhausted));
    assert_eq!(store.record_text("a.rs", "y", 2, 8), Err(StoreError::NumbersExhausted));
    assert_eq!(store.record_delete("a.rs", 2, 1), Ok(true));
}

#[test]
fn a_prefix_can_be_too_long() {
    let mut store = empty_store();
    let id = store.ensure_context(&local(), 0).unwrap();
    let long = "x".repeat(50_000);
    let longest = "x".repeat(49_999);
    assert_eq!(store.record_delete_prefix(&long, 1, id), Ok(0));
    store.record_text("a.rs", "1\n", 1, id).unwrap();
    assert_eq!(store.record_delete_prefix(&longest, 2, id), Ok(0));
    assert_eq!(store.record_delete_prefix(&long, 2, id), Err(StoreError::PatternTooLong));
    assert_eq!(
        store.list_current_live_paths_under(&long, id),
        Err(StoreError::PatternTooLong)
    );
    assert_eq!(StoreError::PatternTooLong.message(), "LIKE or GLOB pattern too complex");
}
