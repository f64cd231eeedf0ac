//! Recording what is found on disk, and bringing it back.
use kairos::config::TimelineConfig;
use kairos::filter::ProjectFilter;
use kairos::git::RuntimeContext;
use kairos::path::PathError;
use kairos::restore::{
    plan_restore_file, plan_restore_project, tally, validate_restore_request, RestoreAction,
    RestoreError, RestorePlan, RestoreStep,
};
use kairos::snapshot::{
    capture_initial_state, changed_path, process_path_change, scan_enters, Observed, ProjectScan,
    ScanSummary, ScannedFile, SnapshotError,
};
use kairos::store::{StoreError, StoredRows, TimelineStore};

const ROOT: &str = "/work/project";

fn store() -> (TimelineStore, i64) {
    let config = TimelineConfig::default();
    let mut store =
        match TimelineStore::open(ROOT.to_string(), config, StoredRows::empty()) {
            Ok(store) => store,
            Err(e) => panic!("{}", e.message()),
        };
    let id = store.ensure_context(&RuntimeContext::local(ROOT.to_string()), 0).unwrap();
    (store, id)
}

fn filter() -> ProjectFilter {
    ProjectFilter::new(ROOT.to_string(), Some(b"*.log\n".to_vec()), 1_000).unwrap()
}

fn found(files: &[(&str, &str)]) -> Vec<ScannedFile> {
    files
        .iter()
        .map(|(path, text)| ScannedFile {
            path: format!("{ROOT}/{path}"),
            text: text.to_string(),
        })
        .collect()
}

#[test]
fn a_scan_records_what_is_there_and_what_is_gone() {
    let (mut store, id) = store();
    let first = found(&[("a.rs", "a\n"), ("src/b.rs", "b\n")]);
    let summary = capture_initial_state(ROOT, &mut store, &first, 10, id).unwrap();
    assert_eq!(summary, ScanSummary { tracked_files: 2, deleted_files: 0 });

    let second = found(&[("a.rs", "a\n"), ("c.rs", "c\n")]);
    let summary = capture_initial_state(ROOT, &mut store, &second, 20, id).unwrap();
    assert_eq!(summary, ScanSummary { tracked_files: 1, deleted_files: 1 });
    assert_eq!(store.file_state_at("a.rs", 20, id), Ok(Some("a\n".to_string())));
    assert_eq!(store.file_state_at("src/b.rs", 20, id), Ok(None));
    assert_eq!(store.file_state_at("src/b.rs", 19, id), Ok(Some("b\n".to_string())));
    assert_eq!(store.file_state_at("c.rs", 20, id), Ok(Some("c\n".to_string())));
    assert_eq!(store.list_current_live_paths(id), vec!["a.rs", "c.rs"]);
    let again = capture_initial_state(ROOT, &mut store, &second, 30, id).unwrap();
    assert_eq!(again, ScanSummary::default());
    assert_eq!(store.list_current_live_paths(id), vec!["a.rs", "c.rs"]);
    assert_eq!(ScanSummary::default(), ScanSummary { tracked_files: 0, deleted_files: 0 });
}

#[test]
fn a_plan_that_is_carried_out_twice_removes_nothing_the_second_time() {
    let (mut store, id) = store();
    store.record_text("a.rs", "1\n", 1, id).unwrap();
    store.record_text("b.rs", "1\n", 5, id).unwrap();
    let plan = plan_restore_project(ROOT, &store, 1, Some(id)).unwrap();
    let paths: Vec<&str> = plan.actions.iter().map(|action| action.path()).collect();
    assert_eq!(paths, vec!["/work/project/a.rs", "/work/project/b.rs"]);
    let carry_out = |there: &mut Vec<String>| {
        let mut steps = Vec::new();
        for action in &plan.actions {
            let path = action.path().to_string();
            let step = action.step(there.contains(&path));
            there.retain(|known| *known != path);
            if step == RestoreStep::WriteFile {
                there.push(path);
            }
            steps.push(step);
        }
        tally(&steps)
    };
    let mut there = vec!["/work/project/b.rs".to_string(), "/work/project/c.rs".to_string()];
    let first = carry_out(&mut there);
    assert_eq!((first.restored_files, first.removed_files), (1, 1));
    let second = carry_out(&mut there);
    assert_eq!((second.restored_files, second.removed_files), (1, 0));
    assert_eq!(there, vec!["/work/project/c.rs", "/work/project/a.rs"]);
}

#[test]
fn a_scan_ends_at_the_first_failure() {
    let (mut store, id) = store();
    let mut files = found(&[("a.rs", "a\n")]);
    files.push(ScannedFile { path: "/elsewhere/b.rs".to_string(), text: "b\n".to_string() });
    files.extend(found(&[("c.rs", "c\n")]));
    let e = capture_initial_state(ROOT, &mut store, &files, 10, id).unwrap_err();
    assert_eq!(e, SnapshotError::Path(PathError::Outside));
    assert_eq!(
        e.message(ROOT, "/elsewhere/b.rs"),
        "path /elsewhere/b.rs is outside the project root /work/project"
    );
    assert_eq!(store.list_all_paths(id), vec!["a.rs"]);
    let mut scan = ProjectScan::new();
    assert_eq!(
        scan.record_file(ROOT, &mut store, "/work/project/a.rs", "x", 10, 9),
        Err(SnapshotError::Store(StoreError::UnknownContext(9)))
    );
}

#[test]
fn a_scan_enters_what_is_not_ignored() {
    let filter = filter();
    assert!(scan_enters(ROOT, ROOT, &filter, true));
    assert!(scan_enters(ROOT, "/work/project/src", &filter, true));
    assert!(!scan_enters(ROOT, "/work/project/target", &filter, true));
    assert!(!scan_enters(ROOT, "/work/project/a.log", &filter, false));
}

#[test]
fn a_changed_path_is_recorded() {
    let (mut store, id) = store();
    let filter = filter();
    let mut change = |path: &str, observed: Observed, at_ms: i64| {
        process_path_change(ROOT, path, &filter, false, &observed, &mut store, at_ms, id)
    };
    assert_eq!(change("/work/project/src/a.rs", Observed::File(Some("1\n".to_string())), 1), Ok(()));
    assert_eq!(change("src/b.rs", Observed::File(Some("1\n".to_string())), 2), Ok(()));
    assert_eq!(change("src/b.rs", Observed::File(None), 3), Ok(()));
    assert_eq!(change("a.log", Observed::File(Some("1\n".to_string())), 4), Ok(()));
    assert_eq!(change("/elsewhere/a.rs", Observed::File(Some("1\n".to_string())), 5), Ok(()));
    assert_eq!(change("src", Observed::Directory, 6), Ok(()));
    assert_eq!(store.list_all_paths(id), vec!["src/a.rs", "src/b.rs"]);
}

#[test]
fn a_missing_path_is_a_file_or_all_below_it() {
    let (mut store, id) = store();
    let filter = filter();
    for path in ["src/a.rs", "src/b.rs", "src"] {
        store.record_text(path, "1\n", 1, id).unwrap();
    }
    let mut gone = |path: &str, at_ms: i64| {
        process_path_change(ROOT, path, &filter, false, &Observed::Missing, &mut store, at_ms, id)
            .unwrap();
        store.list_current_live_paths(id)
    };
    assert_eq!(gone("/work/project/src", 2), vec!["src/a.rs", "src/b.rs"]);
    assert!(gone("/work/project/src", 3).is_empty());
}

#[test]
fn only_paths_of_the_project_are_looked_at() {
    let filter = filter();
    assert_eq!(
        changed_path(ROOT, "src/a.rs", &filter, false),
        Some("/work/project/src/a.rs".to_string())
    );
    assert_eq!(changed_path(ROOT, "/elsewhere/a.swp", &filter, false), None);
    assert_eq!(changed_path(ROOT, ".git/index", &filter, false), None);
}

#[test]
fn plans_write_or_remove() {
    let (mut store, id) = store();
    store.record_text("a.rs", "v1\n", 10, id).unwrap();
    let plan = plan_restore_file(ROOT, &store, "a.rs", 10, Some(id)).unwrap();
    assert_eq!(plan.actions.len(), 1);
    assert_eq!(plan.actions[0].label(), "WRITE");
    assert_eq!(plan.actions[0].path(), "/work/project/a.rs");
    assert_eq!(plan.actions[0].size_bytes(), Some(3));
    let plan = plan_restore_file(ROOT, &store, "a.rs", 9, Some(id)).unwrap();
    assert_eq!(plan.actions[0].label(), "REMOVE");
    assert_eq!(plan.actions[0].size_bytes(), None);
    assert!(matches!(plan_restore_project(ROOT, &store, 9, None), Ok(p) if p.actions.is_empty()));
    assert!(RestorePlan::default().actions.is_empty());
}

#[test]
fn a_removal_counts_only_where_the_file_is_there() {
    let write = RestoreAction::Write { path: "/p/a".to_string(), content: "x".to_string() };
    let remove = RestoreAction::Remove { path: "/p/b".to_string() };
    assert_eq!(write.step(false), RestoreStep::WriteFile);
    assert_eq!(write.step(true), RestoreStep::WriteFile);
    assert_eq!(remove.step(true), RestoreStep::RemoveFile);
    assert_eq!(remove.step(false), RestoreStep::Nothing);
    let summary = tally(&vec![write.step(true), remove.step(true), remove.step(false)]);
    assert_eq!((summary.restored_files, summary.removed_files), (1, 1));
    let plan = RestorePlan { actions: vec![write, remove.clone(), remove] };
    assert_eq!(plan.summary().restored_files, 1);
    assert_eq!(plan.summary().removed_files, 2);
}

#[test]
fn each_refused_restore_says_why() {
    let (mut store, id) = store();
    store.record_text("a.rs", "v1\n", 10, id).unwrap();
    let refused = |file: &str, context: Option<i64>| {
        let e = plan_restore_file(ROOT, &store, file, 10, context).unwrap_err();
        (e, e.message(ROOT, file))
    };
    assert_eq!(
        refused("a.rs", None),
        (RestoreError::NoData, "no timeline data captured yet for the active context".to_string())
    );
    assert_eq!(
        refused("../a.rs", Some(id)),
        (
            RestoreError::Input(PathError::Escapes),
            "path ../a.rs escapes the project root".to_string()
        )
    );
    assert_eq!(
        refused(".", Some(id)),
        (
            RestoreError::Path(PathError::NotAFile),
            "path /work/project/. does not refer to a file inside the project".to_string()
        )
    );
    assert_eq!(validate_restore_request(false), Ok(()));
    assert_eq!(validate_restore_request(true), Err(RestoreError::CrossContext));
    assert_eq!(
        RestoreError::CrossContext.message(ROOT, ""),
        "--allow-cross-context is not supported in phase 2 because restore is scoped to the \
         active context"
    );
}

#[test]
fn what_is_tracked_and_restored_lies_in_the_project() {
    let (mut store, id) = store();
    let e = capture_initial_state(
        ROOT,
        &mut store,
        &vec![ScannedFile { path: format!("{ROOT}/../other.rs"), text: "o\n".to_string() }],
        10,
        id,
    )
    .unwrap_err();
    assert_eq!(e, SnapshotError::Path(PathError::Escapes));
    let e = capture_initial_state(
        ROOT,
        &mut store,
        &vec![ScannedFile { path: "/work/other.rs".to_string(), text: "o\n".to_string() }],
        10,
        id,
    )
    .unwrap_err();
    assert_eq!(e, SnapshotError::Path(PathError::Outside));
    assert!(store.list_all_paths(id).is_empty());

    let files = found(&[("./src//a.rs", "a\n")]);
    capture_initial_state(ROOT, &mut store, &files, 10, id).unwrap();
    assert_eq!(store.list_all_paths(id), vec!["src/a.rs"]);
    let plan = plan_restore_project(ROOT, &store, 10, Some(id)).unwrap();
    assert_eq!(plan.actions.len(), 1);
    assert_eq!(plan.actions[0].path(), "/work/project/src/a.rs");

    for (file, wrong) in [("../a.rs", PathError::Escapes), ("/work/a.rs", PathError::Outside)] {
        let e = plan_restore_file(ROOT, &store, file, 10, Some(id)).unwrap_err();
        assert_eq!(e, RestoreError::Input(wrong));
    }
}
