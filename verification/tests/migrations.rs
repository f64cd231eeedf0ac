//! Timelines of the first layout.
use kairos::config::TimelineConfig;
use kairos::delta::create_patch;
use kairos::git::{GitContext, RuntimeContext};
use kairos::store::migrate::{
    integrity_failure, legacy_row_to_git_context, materialize_legacy_content, missing_git_columns,
    plan_schema, LegacyFileRow, LegacyRevisionRow, SchemaPlan,
};
use kairos::store::rows::{RowChange, WatcherRow};
use kairos::store::{EventType, StorageKind, StoreError, TimelineStore};

const ROOT: &str = "/work/project";

fn branch(name: &str) -> GitContext {
    GitContext {
        worktree_root: ROOT.to_string(),
        common_git_dir: format!("{ROOT}/.git"),
        branch_name: Some(name.to_string()),
        head_commit: None,
        detached_head: false,
    }
}

fn row(
    id: i64,
    at_ms: i64,
    event_type: EventType,
    storage_kind: StorageKind,
    payload: Option<Vec<u8>>,
    git_context: Option<GitContext>,
) -> LegacyRevisionRow {
    LegacyRevisionRow {
        id,
        file_id: 1,
        recorded_at_ms: at_ms,
        event_type,
        storage_kind,
        payload,
        git_context,
    }
}

fn migrated(revisions: Vec<LegacyRevisionRow>) -> Result<TimelineStore, StoreError> {
    TimelineStore::migrate_v1_to_v2(
        ROOT.to_string(),
        TimelineConfig::default(),
        None,
        &vec![LegacyFileRow { id: 1, path: "a.rs".to_string() }],
        &revisions,
    )
}

#[test]
fn layouts_are_told_apart() {
    assert_eq!(plan_schema(0, false, false, false, false), Ok(SchemaPlan::Create));
    assert_eq!(plan_schema(0, true, false, false, true), Ok(SchemaPlan::AddColumnsAndMigrate));
    assert_eq!(plan_schema(1, true, false, false, true), Ok(SchemaPlan::Migrate));
    assert_eq!(plan_schema(2, false, true, true, true), Ok(SchemaPlan::Support));
    assert_eq!(
        plan_schema(0, false, true, false, false),
        Err(StoreError::UnsupportedVersion(0))
    );
    assert_eq!(plan_schema(3, false, true, true, true), Err(StoreError::UnsupportedVersion(3)));
}

#[test]
fn missing_columns_are_added_in_order() {
    let columns = vec!["id".to_string(), "git_branch_name".to_string()];
    assert_eq!(
        missing_git_columns(&columns),
        vec!["git_worktree_root", "git_common_dir", "git_head_commit", "git_detached_head"]
    );
}

#[test]
fn quick_checks_answer_ok() {
    assert_eq!(integrity_failure("ok"), None);
    assert_eq!(
        integrity_failure("row 1 missing"),
        Some(
            "timeline metadata appears corrupted: sqlite quick_check returned `row 1 missing`"
                .to_string()
        )
    );
}

#[test]
fn legacy_columns_name_a_git_state() {
    let git = legacy_row_to_git_context(
        Some("/w".to_string()),
        Some("/w/.git".to_string()),
        None,
        Some("abc".to_string()),
        1,
    )
    .unwrap();
    assert_eq!(git.worktree_root, "/w");
    assert_eq!(git.common_git_dir, "/w/.git");
    assert_eq!(git.branch_name, None);
    assert_eq!(git.head_commit, Some("abc".to_string()));
    assert!(git.detached_head);
    assert_eq!(legacy_row_to_git_context(None, Some("/w".to_string()), None, None, 0), None);
}

#[test]
fn contents_are_replayed_across_contexts() {
    let revisions = vec![
        row(1, 10, EventType::Create, StorageKind::Full, Some(b"1\n".to_vec()), None),
        row(
            2,
            20,
            EventType::Modify,
            StorageKind::Patch,
            Some(create_patch("1\n", "2\n")),
            Some(branch("main")),
        ),
        row(
            3,
            30,
            EventType::Modify,
            StorageKind::Patch,
            Some(create_patch("2\n", "3\n")),
            None,
        ),
        row(4, 40, EventType::Delete, StorageKind::Absent, None, Some(branch("main"))),
    ];
    let mut store = migrated(revisions).unwrap();
    let rows: Vec<(i64, StorageKind, Option<i64>)> = store
        .take_changes()
        .iter()
        .filter_map(|change| match change {
            RowChange::InsertRevision(row) => {
                Some((row.ordinal, row.storage_kind, row.base_revision_id))
            }
            _ => None,
        })
        .collect();
    assert_eq!(
        rows,
        vec![
            (1, StorageKind::Full, None),
            (1, StorageKind::Full, None),
            (2, StorageKind::Full, None),
            (2, StorageKind::Absent, None),
        ]
    );
    let local = store.resolve_context_id(&RuntimeContext::local(ROOT.to_string())).unwrap();
    let main = store.resolve_context_id(&RuntimeContext::from_git(branch("main"))).unwrap();
    assert_eq!(store.file_state_at("a.rs", 10, local), Ok(Some("1\n".to_string())));
    assert_eq!(store.file_state_at("a.rs", 99, local), Ok(Some("3\n".to_string())));
    assert_eq!(store.file_state_at("a.rs", 20, main), Ok(Some("2\n".to_string())));
    assert_eq!(store.file_state_at("a.rs", 40, main), Ok(None));
}

#[test]
fn the_watcher_row_is_kept() {
    let watcher =
        WatcherRow { pid: 5, root_path: ROOT.to_string(), started_at_ms: 1, heartbeat_ms: 2 };
    let store = TimelineStore::migrate_v1_to_v2(
        ROOT.to_string(),
        TimelineConfig::default(),
        Some(watcher),
        &vec![],
        &vec![],
    )
    .unwrap();
    assert_eq!(store.status(3).watcher.pid, Some(5));
}

#[test]
fn each_broken_legacy_revision_says_what_is_missing() {
    let full = |payload: Option<Vec<u8>>| {
        row(1, 10, EventType::Create, StorageKind::Full, payload, None)
    };
    let patch = |payload: Option<Vec<u8>>| {
        row(1, 10, EventType::Modify, StorageKind::Patch, payload, None)
    };
    let read = |previous: Option<&str>, row: LegacyRevisionRow| {
        materialize_legacy_content(&previous.map(|text| text.to_string()), &row)
    };
    assert_eq!(read(None, full(Some(b"x".to_vec()))), Ok("x".to_string()));
    assert_eq!(read(None, full(None)), Err(StoreError::LegacyMissingFullPayload));
    assert_eq!(read(None, full(Some(vec![0xff]))), Err(StoreError::LegacyInvalidUtf8));
    assert_eq!(read(None, patch(Some(vec![]))), Err(StoreError::LegacyMissingPrevious));
    assert_eq!(read(Some("x"), patch(None)), Err(StoreError::LegacyMissingPatchPayload));
    let absent = row(1, 10, EventType::Create, StorageKind::Absent, None, None);
    assert_eq!(read(Some("x"), absent), Err(StoreError::LegacyNoContent));
    match migrated(vec![full(None)]) {
        Err(e) => assert_eq!(e.message(), "legacy revision is missing a full payload"),
        Ok(_) => panic!("the revision was accepted"),
    }
}

#[test]
fn migrated_rows_are_numbered_in_each_context_by_time() {
    let text = |s: &str| Some(s.as_bytes().to_vec());
    let mut store = migrated(vec![
        row(9, 10, EventType::Create, StorageKind::Full, text("1\n"), None),
        row(2, 30, EventType::Modify, StorageKind::Full, text("3\n"), None),
        row(7, 20, EventType::Modify, StorageKind::Full, text("2\n"), Some(branch("main"))),
        row(8, 30, EventType::Delete, StorageKind::Absent, None, None),
    ])
    .unwrap();
    let rows: Vec<(i64, i64, i64, EventType, Option<Vec<u8>>)> = store
        .take_changes()
        .into_iter()
        .filter_map(|change| match change {
            RowChange::InsertRevision(row) => {
                assert_eq!(row.base_revision_id, None);
                Some((row.file_id, row.ordinal, row.recorded_at_ms, row.event_type, row.payload))
            }
            _ => None,
        })
        .collect();
    assert_eq!(
        rows,
        vec![
            (1, 1, 10, EventType::Create, text("1\n")),
            (2, 1, 20, EventType::Modify, text("2\n")),
            (1, 2, 30, EventType::Modify, text("3\n")),
            (1, 3, 30, EventType::Delete, None),
        ]
    );
}
