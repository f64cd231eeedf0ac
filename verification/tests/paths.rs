//! Paths of a project.
use kairos::config::{
    normalize_relative_path, resolve_input_path, timeline_storage_size, validate_existing_dir,
    ConfigError, ProjectPaths, TimelineConfig, TimelineMarks,
};
use kairos::path::{ancestors, display_restore_path, join_path, parent_path, path_is_before, PathError};

const ROOT: &str = "/work/project";

#[test]
fn defaults_are_those_of_the_manual() {
    let config = TimelineConfig::default();
    assert_eq!(config.retention_days, 7);
    assert_eq!(config.debounce_ms, 1_200);
    assert_eq!(config.max_file_size_bytes, 1_048_576);
    assert_eq!(config.full_snapshot_interval, 20);
}

#[test]
fn inputs_are_taken_relative_to_the_project() {
    assert_eq!(resolve_input_path(ROOT, "src/lib.rs"), Ok("/work/project/src/lib.rs".to_string()));
    assert_eq!(
        resolve_input_path(ROOT, "/work/project/src/lib.rs"),
        Ok("/work/project/src/lib.rs".to_string())
    );
    assert_eq!(resolve_input_path(ROOT, "src/../../x"), Err(PathError::Escapes));
    assert_eq!(resolve_input_path(ROOT, "/etc/passwd"), Err(PathError::Outside));
    assert_eq!(resolve_input_path(ROOT, "/work/projects/x"), Err(PathError::Outside));
}

#[test]
fn tracked_paths_are_made_of_names() {
    assert_eq!(normalize_relative_path(ROOT, "./src//a/./b.rs"), Ok("src/a/b.rs".to_string()));
    assert_eq!(
        normalize_relative_path(ROOT, "/work/project/src/a.rs"),
        Ok("src/a.rs".to_string())
    );
    assert_eq!(normalize_relative_path(ROOT, "/work/project"), Err(PathError::NotAFile));
    assert_eq!(normalize_relative_path(ROOT, "."), Err(PathError::NotAFile));
    assert_eq!(normalize_relative_path(ROOT, "a/../b"), Err(PathError::Escapes));
    assert_eq!(normalize_relative_path(ROOT, "/elsewhere"), Err(PathError::Outside));
}

#[test]
fn normal_paths_are_stable() {
    for path in ["./src//a/./b.rs", "/work/project/x", "y/"] {
        let once = normalize_relative_path(ROOT, path).unwrap();
        assert_eq!(normalize_relative_path(ROOT, &once), Ok(once.clone()));
    }
}

#[test]
fn upward_paths_are_refused() {
    for path in ["..", "../x", "a/..", "a/../../b"] {
        assert_eq!(normalize_relative_path(ROOT, path), Err(PathError::Escapes));
        assert_eq!(resolve_input_path(ROOT, path), Err(PathError::Escapes));
    }
}

#[test]
fn path_errors_name_the_path() {
    assert_eq!(
        PathError::Outside.message(ROOT, "/x"),
        "path /x is outside the project root /work/project"
    );
    assert_eq!(PathError::Escapes.message(ROOT, "../x"), "path ../x escapes the project root");
    assert_eq!(
        PathError::NotAFile.message(ROOT, "."),
        "path . does not refer to a file inside the project"
    );
}

#[test]
fn joining_keeps_absolute_paths() {
    assert_eq!(join_path("/a", "b"), "/a/b");
    assert_eq!(join_path("/a/", "b"), "/a/b");
    assert_eq!(join_path("/a", "/b"), "/b");
    assert_eq!(join_path("", "b"), "b");
    assert_eq!(join_path("/a", ""), "/a/");
}

#[test]
fn paths_are_ordered_part_by_part() {
    assert!(path_is_before("a/b", "a-b"));
    assert!(!path_is_before("a-b", "a/b"));
    assert!(path_is_before("a", "a/b"));
    assert!(!path_is_before("a//b", "a/b"));
    assert!(!path_is_before("a/b", "a//b"));
}

#[test]
fn restored_paths_are_shown_below_the_root() {
    assert_eq!(display_restore_path(ROOT, "/work/project/src/a.rs"), "src/a.rs");
    assert_eq!(display_restore_path(ROOT, "/work/other/a.rs"), "/work/other/a.rs");
}

#[test]
fn parents_lead_up_to_the_root() {
    assert_eq!(parent_path("/a/b"), Some("/a".to_string()));
    assert_eq!(parent_path("/"), None);
    assert_eq!(ancestors("/a/b"), vec!["/a/b", "/a", "/"]);
}

#[test]
fn the_nearest_timeline_is_found() {
    let none =
        TimelineMarks { has_timeline: false, has_database: false, has_legacy_database: false };
    let legacy = TimelineMarks { has_timeline: true, has_legacy_database: true, ..none };
    let both = TimelineMarks { has_database: true, ..legacy };
    let paths = ProjectPaths::discover("/a/b/c", &vec![none, legacy, both, none]).unwrap();
    assert_eq!(paths.root, "/a/b");
    assert_eq!(paths.database_path, "/a/b/.timeline/keiros.db");
    let paths = ProjectPaths::discover("/a/b/c", &vec![none, none, both, none]).unwrap();
    assert_eq!(paths.database_path, "/a/.timeline/kairos.db");
    match ProjectPaths::discover("/a/b/c", &vec![none, none, none, none]) {
        Ok(paths) => panic!("{paths:?}"),
        Err(e) => assert_eq!(
            e.message("/a/b/c"),
            "could not find a .timeline directory. Run `keiros watch` from the project root first."
        ),
    }
}

#[test]
fn projects_are_directories() {
    assert_eq!(validate_existing_dir(true, true), Ok(()));
    assert_eq!(validate_existing_dir(false, false), Err(ConfigError::Missing));
    assert_eq!(validate_existing_dir(true, false), Err(ConfigError::NotADirectory));
    assert_eq!(ConfigError::Missing.message("/x"), "/x does not exist");
    assert_eq!(ConfigError::NotADirectory.message("/x"), "/x is not a directory");
}

#[test]
fn project_paths_lie_below_the_root() {
    let paths = ProjectPaths::from_root(ROOT.to_string());
    assert_eq!(paths.root, "/work/project");
    assert_eq!(paths.timeline_dir, "/work/project/.timeline");
    let both = ProjectPaths::from_existing(ROOT.to_string(), true, true);
    assert_eq!(both.database_path, "/work/project/.timeline/kairos.db");
}

#[test]
fn storage_size_is_a_sum() {
    assert_eq!(timeline_storage_size(&vec![]), 0);
    assert_eq!(timeline_storage_size(&vec![1, 2, 4]), 7);
    assert_eq!(timeline_storage_size(&vec![u64::MAX, 5]), u64::MAX);
}
