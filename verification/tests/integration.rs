//! The timeline from end to end, on a disk that is kept in memory.
use kairos::config::{
    ProjectPaths, TimelineConfig, TimelineMarks, DAY_MS, DEFAULT_MAX_FILE_SIZE_BYTES,
};
use kairos::debounce::Debouncer;
use kairos::delta::create_patch;
use kairos::filter::ProjectFilter;
use kairos::git::{detect_runtime_context, GitAnswers, RuntimeContext};
use kairos::path::display_restore_path;
use kairos::restore::{
    plan_restore_file, plan_restore_project, tally, validate_restore_request,
    ProjectRestoreSummary, RestoreAction, RestorePlan, RestoreStep,
};
use kairos::store::migrate::{plan_schema, LegacyFileRow, LegacyRevisionRow, SchemaPlan};
use kairos::store::rows::RowChange;
use kairos::store::{EventType, StorageKind, StoredRows, TimelineStore};

const MS: u128 = 1_000_000;
const ROOT: &str = "/work/project";

fn open_store(root: &str) -> TimelineStore {
    match TimelineStore::open(root.to_string(), TimelineConfig::default(), StoredRows::empty()) {
        Ok(store) => store,
        Err(e) => panic!("{}", e.message()),
    }
}

fn local_context_id(store: &mut TimelineStore, root: &str, recorded_at_ms: i64) -> i64 {
    let context = RuntimeContext::local(root.to_string());
    store.ensure_context(&context, recorded_at_ms).unwrap()
}

fn on_branch(root: &str, branch: &str, head: &str) -> RuntimeContext {
    let answers = GitAnswers {
        inside_worktree: Some("true".to_string()),
        worktree_root: Some(root.to_string()),
        common_git_dir: Some("/work/project/.git".to_string()),
        branch_name: Some(branch.to_string()),
        head_commit: Some(head.to_string()),
    };
    detect_runtime_context(root.to_string(), answers).unwrap()
}

const HEAD: &str = "0123456789abcdef0123456789abcdef01234567";

struct Disk {
    files: Vec<(String, String)>,
}

impl Disk {
    fn new(files: &[(&str, &str)]) -> Disk {
        Disk {
            files: files
                .iter()
                .map(|(path, text)| (format!("{ROOT}/{path}"), text.to_string()))
                .collect(),
        }
    }

    fn read(&self, path: &str) -> Option<String> {
        let whole = format!("{ROOT}/{path}");
        self.files.iter().find(|(p, _)| *p == whole).map(|(_, text)| text.clone())
    }

    fn holds(&self, whole: &str) -> bool {
        self.files.iter().any(|(p, _)| p == whole)
    }

    fn carry_out(&mut self, plan: &RestorePlan) -> ProjectRestoreSummary {
        let mut steps: Vec<RestoreStep> = Vec::new();
        for action in &plan.actions {
            let step = action.step(self.holds(action.path()));
            if step != RestoreStep::Nothing {
                self.files.retain(|(p, _)| p != action.path());
            }
            if let RestoreAction::Write { path, content } = action {
                self.files.push((path.clone(), content.clone()));
            }
            steps.push(step);
        }
        tally(&steps)
    }
}

#[test]
fn debounce_waits_for_stable_idle_window() {
    let base: u128 = 77_000 * MS;
    let path = "src/lib.rs".to_string();
    let mut debouncer = Debouncer::new(1_000 * MS);

    debouncer.record(path.clone(), base);
    assert!(debouncer.drain_ready(base + 500 * MS).is_empty());

    debouncer.record(path.clone(), base + 700 * MS);
    assert!(debouncer.drain_ready(base + 1_500 * MS).is_empty());

    let ready = debouncer.drain_ready(base + 1_701 * MS);
    assert_eq!(ready, vec![path]);
}

fn read_text(filter: &ProjectFilter, path: &str, text: &str) -> Option<String> {
    let whole = format!("{ROOT}/{path}");
    assert!(filter.is_tellable(&whole, false));
    filter.read_trackable_text(&whole, true, text.len() as u64, text.as_bytes().to_vec())
}

#[test]
fn ignore_filter_uses_gitignore_and_builtin_rules() {
    let gitignore = Some("ignored.rs\n".as_bytes().to_vec());
    let filter =
        ProjectFilter::new(ROOT.to_string(), gitignore, DEFAULT_MAX_FILE_SIZE_BYTES).unwrap();
    assert!(read_text(&filter, "src/lib.rs", "fn main() {}\n").is_some());
    assert!(read_text(&filter, "ignored.rs", "ignored\n").is_none());
    assert!(read_text(&filter, ".env", "SECRET=1\n").is_none());
    assert!(read_text(&filter, "node_modules/pkg/index.js", "module.exports = {}\n").is_none());
}

#[test]
fn oversized_files_are_skipped() {
    let content = "a".repeat((DEFAULT_MAX_FILE_SIZE_BYTES + 1) as usize);
    let filter = ProjectFilter::new(ROOT.to_string(), None, DEFAULT_MAX_FILE_SIZE_BYTES).unwrap();
    assert!(read_text(&filter, "src/large.rs", &content).is_none());
}

#[test]
fn restore_file_recovers_an_older_version() {
    let mut disk = Disk::new(&[("src/main.rs", "broken\n")]);
    let mut store = open_store(ROOT);
    let context_id = local_context_id(&mut store, ROOT, 1_000);
    store
        .record_text("src/main.rs", "fn main() { println!(\"v1\"); }\n", 1_000, context_id)
        .unwrap();
    store
        .record_text("src/main.rs", "fn main() { println!(\"v2\"); }\n", 2_000, context_id)
        .unwrap();

    let plan = plan_restore_file(ROOT, &store, "src/main.rs", 1_500, Some(context_id)).unwrap();
    validate_restore_request(false).unwrap();
    disk.carry_out(&plan);

    assert_eq!(
        disk.read("src/main.rs"),
        Some("fn main() { println!(\"v1\"); }\n".to_string())
    );
}

#[test]
fn restore_project_recovers_multiple_files_and_removes_newer_ones() {
    let mut disk = Disk::new(&[
        ("src/a.rs", "current a\n"),
        ("src/b.rs", "current b\n"),
        ("src/c.rs", "current c\n"),
    ]);
    let mut store = open_store(ROOT);
    let context_id = local_context_id(&mut store, ROOT, 1_000);
    store.record_text("src/a.rs", "a1\n", 1_000, context_id).unwrap();
    store.record_text("src/b.rs", "b1\n", 1_000, context_id).unwrap();
    store.record_text("src/a.rs", "a2\n", 2_000, context_id).unwrap();
    store.record_delete("src/b.rs", 3_000, context_id).unwrap();
    store.record_text("src/c.rs", "c1\n", 3_000, context_id).unwrap();

    let plan = plan_restore_project(ROOT, &store, 1_500, Some(context_id)).unwrap();
    validate_restore_request(false).unwrap();
    let summary = disk.carry_out(&plan);

    assert_eq!(summary.restored_files, 2);
    assert_eq!(summary.removed_files, 1);
    assert_eq!(disk.read("src/a.rs"), Some("a1\n".to_string()));
    assert_eq!(disk.read("src/b.rs"), Some("b1\n".to_string()));
    assert!(disk.read("src/c.rs").is_none());
}

#[test]
fn restore_file_dry_run_does_not_modify_disk() {
    let disk = Disk::new(&[("src/main.rs", "current\n")]);
    let mut store = open_store(ROOT);
    let context_id = local_context_id(&mut store, ROOT, 1_000);
    store.record_text("src/main.rs", "v1\n", 1_000, context_id).unwrap();
    store.record_text("src/main.rs", "v2\n", 2_000, context_id).unwrap();

    let plan = plan_restore_file(ROOT, &store, "src/main.rs", 1_500, Some(context_id)).unwrap();
    validate_restore_request(false).unwrap();

    let summary = plan.summary();
    assert_eq!(summary.restored_files, 1);
    assert_eq!(summary.removed_files, 0);
    assert_eq!(disk.read("src/main.rs"), Some("current\n".to_string()));
}

#[test]
fn restore_file_errors_when_active_context_has_not_been_captured() {
    let mut store = open_store(ROOT);
    let main_context = on_branch(ROOT, "main", HEAD);
    let main_context_id = store.ensure_context(&main_context, 1_000).unwrap();
    store
        .record_text("src/main.rs", "main branch bytes\n", 1_000, main_context_id)
        .unwrap();

    let disk = Disk::new(&[("src/main.rs", "feature branch bytes\n")]);
    let feature_context = on_branch(ROOT, "feature", HEAD);
    let feature_context_id = store.resolve_context_id(&feature_context);
    assert!(feature_context_id.is_none());

    let error =
        plan_restore_file(ROOT, &store, "src/main.rs", 1_500, feature_context_id).unwrap_err();

    assert!(error
        .message(ROOT, "src/main.rs")
        .contains("no timeline data captured yet for the active context"));
    assert_eq!(disk.read("src/main.rs"), Some("feature branch bytes\n".to_string()));
}

#[test]
fn restore_project_dry_run_does_not_modify_disk() {
    let disk = Disk::new(&[
        ("src/a.rs", "current a\n"),
        ("src/b.rs", "current b\n"),
        ("src/c.rs", "current c\n"),
    ]);
    let mut store = open_store(ROOT);
    let context_id = local_context_id(&mut store, ROOT, 1_000);
    store.record_text("src/a.rs", "a1\n", 1_000, context_id).unwrap();
    store.record_text("src/b.rs", "b1\n", 1_000, context_id).unwrap();
    store.record_delete("src/b.rs", 3_000, context_id).unwrap();
    store.record_text("src/c.rs", "c1\n", 3_000, context_id).unwrap();

    let plan = plan_restore_project(ROOT, &store, 1_500, Some(context_id)).unwrap();
    validate_restore_request(false).unwrap();

    let summary = plan.summary();
    assert_eq!(summary.restored_files, 2);
    assert_eq!(summary.removed_files, 1);
    assert_eq!(disk.read("src/a.rs"), Some("current a\n".to_string()));
    assert_eq!(disk.read("src/b.rs"), Some("current b\n".to_string()));
    assert_eq!(disk.read("src/c.rs"), Some("current c\n".to_string()));
}

#[test]
fn non_git_project_restore_still_works() {
    let mut disk = Disk::new(&[("src/lib.rs", "current\n")]);
    let mut store = open_store(ROOT);
    let context_id = local_context_id(&mut store, ROOT, 1_000);
    store.record_text("src/lib.rs", "v1\n", 1_000, context_id).unwrap();
    store.record_text("src/lib.rs", "v2\n", 2_000, context_id).unwrap();

    let plan = plan_restore_project(ROOT, &store, 1_500, Some(context_id)).unwrap();
    validate_restore_request(false).unwrap();
    let summary = disk.carry_out(&plan);

    assert_eq!(summary.restored_files, 1);
    assert_eq!(summary.removed_files, 0);
    assert_eq!(disk.read("src/lib.rs"), Some("v1\n".to_string()));
}

#[test]
fn delete_revisions_make_the_file_absent_after_the_delete_timestamp() {
    let mut store = open_store(ROOT);
    let context_id = local_context_id(&mut store, ROOT, 1_000);
    store.record_text("src/lib.rs", "v1\n", 1_000, context_id).unwrap();
    store.record_delete("src/lib.rs", 2_000, context_id).unwrap();

    assert_eq!(
        store.file_state_at("src/lib.rs", 1_500, context_id),
        Ok(Some("v1\n".to_string()))
    );
    assert_eq!(store.file_state_at("src/lib.rs", 2_500, context_id), Ok(None));
}

#[test]
fn pruning_keeps_a_boundary_anchor_and_newer_revisions() {
    let mut store = open_store(ROOT);
    let context_id = local_context_id(&mut store, ROOT, 0);
    store.record_text("src/lib.rs", "v0\n", 0, context_id).unwrap();
    store.record_text("src/lib.rs", "v1\n", DAY_MS, context_id).unwrap();
    store.record_text("src/lib.rs", "v2\n", 8 * DAY_MS, context_id).unwrap();

    let summary = store.prune(10 * DAY_MS).unwrap();
    assert_eq!(summary.removed_revisions, 1);
    assert_eq!(store.file_history("src/lib.rs", context_id).len(), 2);
    assert_eq!(
        store.file_state_at("src/lib.rs", 4 * DAY_MS, context_id),
        Ok(Some("v1\n".to_string()))
    );
    assert_eq!(
        store.file_state_at("src/lib.rs", 8 * DAY_MS, context_id),
        Ok(Some("v2\n".to_string()))
    );
}

#[test]
fn timestamp_lookup_uses_latest_revision_at_or_before_the_target() {
    let mut store = open_store(ROOT);
    let context_id = local_context_id(&mut store, ROOT, 1_000);
    store.record_text("src/lib.rs", "v1\n", 1_000, context_id).unwrap();
    store.record_text("src/lib.rs", "v2\n", 2_000, context_id).unwrap();
    store.record_delete("src/lib.rs", 3_000, context_id).unwrap();
    store.record_text("src/lib.rs", "v3\n", 4_000, context_id).unwrap();

    assert_eq!(
        store.file_state_at("src/lib.rs", 1_999, context_id),
        Ok(Some("v1\n".to_string()))
    );
    assert_eq!(
        store.file_state_at("src/lib.rs", 2_500, context_id),
        Ok(Some("v2\n".to_string()))
    );
    assert_eq!(store.file_state_at("src/lib.rs", 3_500, context_id), Ok(None));
    assert_eq!(
        store.file_state_at("src/lib.rs", 4_500, context_id),
        Ok(Some("v3\n".to_string()))
    );
}

#[test]
fn branch_switch_creates_a_new_context_stream() {
    let mut store = open_store(ROOT);
    let main_context_id = store.ensure_context(&on_branch(ROOT, "main", HEAD), 1_000).unwrap();
    store.record_text("src/lib.rs", "main\n", 1_000, main_context_id).unwrap();

    let feature_context_id =
        store.ensure_context(&on_branch(ROOT, "feature", HEAD), 2_000).unwrap();
    store.record_text("src/lib.rs", "feature\n", 2_000, feature_context_id).unwrap();

    assert_ne!(main_context_id, feature_context_id);
    assert_eq!(
        store.file_state_at("src/lib.rs", 2_500, main_context_id),
        Ok(Some("main\n".to_string()))
    );
    assert_eq!(
        store.file_state_at("src/lib.rs", 2_500, feature_context_id),
        Ok(Some("feature\n".to_string()))
    );
}

#[test]
fn history_only_shows_current_context_entries() {
    let mut store = open_store(ROOT);
    let main_context_id = store.ensure_context(&on_branch(ROOT, "main", HEAD), 1_000).unwrap();
    store.record_text("src/lib.rs", "main-1\n", 1_000, main_context_id).unwrap();
    store.record_text("src/lib.rs", "main-2\n", 1_500, main_context_id).unwrap();

    let feature_context = on_branch(ROOT, "feature", HEAD);
    let feature_context_id = store.ensure_context(&feature_context, 2_000).unwrap();
    store.record_text("src/lib.rs", "feature-1\n", 2_000, feature_context_id).unwrap();

    let history = store.file_history("src/lib.rs", feature_context_id);
    assert_eq!(history.len(), 1);
    assert_eq!(history[0].recorded_at_ms, 2_000);
    assert_eq!(history[0].event_type.as_str(), "create");
}

#[test]
fn recent_only_shows_current_context_entries() {
    let mut store = open_store(ROOT);
    let main_context_id = store.ensure_context(&on_branch(ROOT, "main", HEAD), 1_000).unwrap();
    store.record_text("src/main.rs", "main\n", 1_000, main_context_id).unwrap();

    let feature_context_id =
        store.ensure_context(&on_branch(ROOT, "feature", HEAD), 2_000).unwrap();
    store.record_text("src/feature.rs", "feature\n", 2_000, feature_context_id).unwrap();

    let changes = store.recent_changes(10, feature_context_id);
    assert_eq!(changes.len(), 1);
    assert_eq!(changes[0].path, "src/feature.rs");
}

#[test]
fn restore_project_only_rebuilds_files_from_current_context() {
    let mut store = open_store(ROOT);
    let main_context_id = store.ensure_context(&on_branch(ROOT, "main", HEAD), 1_000).unwrap();
    store.record_text("src/main_only.rs", "main\n", 1_000, main_context_id).unwrap();

    let feature_context_id =
        store.ensure_context(&on_branch(ROOT, "feature", HEAD), 2_000).unwrap();
    store.record_text("src/feature_only.rs", "feature\n", 2_000, feature_context_id).unwrap();
    store.record_text("src/shared.rs", "shared feature\n", 2_000, feature_context_id).unwrap();

    let mut disk = Disk::new(&[
        ("src/main_only.rs", "disk main\n"),
        ("src/feature_only.rs", "disk feature\n"),
        ("src/shared.rs", "disk shared\n"),
    ]);

    let plan = plan_restore_project(ROOT, &store, 2_500, Some(feature_context_id)).unwrap();
    let planned_paths: Vec<String> =
        plan.actions.iter().map(|action| display_restore_path(ROOT, action.path())).collect();
    assert_eq!(planned_paths, vec!["src/feature_only.rs", "src/shared.rs"]);

    disk.carry_out(&plan);
    assert_eq!(disk.read("src/main_only.rs"), Some("disk main\n".to_string()));
    assert_eq!(disk.read("src/feature_only.rs"), Some("feature\n".to_string()));
    assert_eq!(disk.read("src/shared.rs"), Some("shared feature\n".to_string()));
}

fn legacy_revision(
    id: i64,
    recorded_at_ms: i64,
    event_type: EventType,
    storage_kind: StorageKind,
    payload: Vec<u8>,
) -> LegacyRevisionRow {
    LegacyRevisionRow {
        id,
        file_id: 1,
        recorded_at_ms,
        event_type,
        storage_kind,
        payload: Some(payload),
        git_context: None,
    }
}

fn legacy_file() -> LegacyFileRow {
    LegacyFileRow { id: 1, path: "src/lib.rs".to_string() }
}

#[test]
fn v1_database_migrates_to_v2() {
    assert_eq!(plan_schema(1, true, false, false, true), Ok(SchemaPlan::Migrate));
    let revision =
        legacy_revision(1, 1_000, EventType::Create, StorageKind::Full, b"v1\n".to_vec());
    let mut store = TimelineStore::migrate_v1_to_v2(
        ROOT.to_string(),
        TimelineConfig::default(),
        None,
        &vec![legacy_file()],
        &vec![revision],
    )
    .unwrap();
    let context_id = local_context_id(&mut store, ROOT, 1_500);
    assert_eq!(
        store.file_state_at("src/lib.rs", 1_500, context_id),
        Ok(Some("v1\n".to_string()))
    );
    // What is found from then on is the current layout.
    assert_eq!(plan_schema(2, false, true, true, true), Ok(SchemaPlan::Support));
}

#[test]
fn phase2_migration_rewrites_patch_chains_as_full_snapshots() {
    let patch = create_patch("v1\n", "v2\n");
    let revisions = vec![
        legacy_revision(1, 1_000, EventType::Create, StorageKind::Full, b"v1\n".to_vec()),
        legacy_revision(2, 2_000, EventType::Modify, StorageKind::Patch, patch),
    ];
    let mut store = TimelineStore::migrate_v1_to_v2(
        ROOT.to_string(),
        TimelineConfig::default(),
        None,
        &vec![legacy_file()],
        &revisions,
    )
    .unwrap();
    let migrated: Vec<(String, Option<i64>)> = store
        .take_changes()
        .iter()
        .filter_map(|change| match change {
            RowChange::InsertRevision(row) => {
                Some((row.storage_kind.as_str().to_string(), row.base_revision_id))
            }
            _ => None,
        })
        .collect();
    assert_eq!(migrated, vec![("full".to_string(), None), ("full".to_string(), None)]);

    let context_id = local_context_id(&mut store, ROOT, 2_500);
    assert_eq!(
        store.file_state_at("src/lib.rs", 2_500, context_id),
        Ok(Some("v2\n".to_string()))
    );
}

#[test]
fn worktree_a_and_worktree_b_do_not_share_file_streams() {
    let main_root = "/work/main";
    let worktree_root = "/work/feature-worktree";
    let mut main_store = open_store(main_root);
    let mut worktree_store = open_store(worktree_root);
    let main_context = on_branch(main_root, "main", HEAD);
    let worktree_context = on_branch(worktree_root, "feature", HEAD);

    let main_context_id = main_store.ensure_context(&main_context, 1_000).unwrap();
    let worktree_context_id = worktree_store.ensure_context(&worktree_context, 2_000).unwrap();
    main_store.record_text("src/lib.rs", "main worktree\n", 1_000, main_context_id).unwrap();
    worktree_store
        .record_text("src/lib.rs", "feature worktree\n", 2_000, worktree_context_id)
        .unwrap();

    assert_eq!(
        main_store.file_state_at("src/lib.rs", 3_000, main_context_id),
        Ok(Some("main worktree\n".to_string()))
    );
    assert_eq!(
        worktree_store.file_state_at("src/lib.rs", 3_000, worktree_context_id),
        Ok(Some("feature worktree\n".to_string()))
    );
    assert_ne!(main_context.fingerprint(), worktree_context.fingerprint());
    assert!(main_store.resolve_context_id(&worktree_context).is_none());
}

#[test]
fn new_projects_use_kairos_database_name() {
    let paths = ProjectPaths::from_existing(ROOT.to_string(), false, false);
    assert_eq!(paths.database_path, format!("{ROOT}/.timeline/kairos.db"));
    let paths = ProjectPaths::from_root(ROOT.to_string());
    assert_eq!(paths.database_path, format!("{ROOT}/.timeline/kairos.db"));
}

#[test]
fn legacy_keiros_database_name_is_still_discovered() {
    let found = TimelineMarks { has_timeline: true, has_database: false, has_legacy_database: true };
    let above = TimelineMarks { has_timeline: false, ..found };
    let paths = ProjectPaths::discover(ROOT, &vec![found, above, above]).unwrap();
    assert_eq!(paths.database_path, format!("{ROOT}/.timeline/keiros.db"));
}
